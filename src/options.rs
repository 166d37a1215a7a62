//! Parsing of the plain values that callers hand in: network names and chain ids,
//! transaction ids in hex, the linear fee configuration, and the signing parameters
//! of a multisignature address.
use vstd::prelude::*;
use vstd::string::StringSliceAdditionalSpecFns;
use crate::builder::LinearFee;
use crate::crypto::{decode_hex, gcd_of, gcd_u64, hex_bytes};
use crate::error::Error;
use crate::keys::bytes_equal;

verus! {

/// The network a chain id selects.
#[derive(Debug, Clone, Copy, PartialEq, Eq, Structural)]
pub enum Network {
    Mainnet,
    Testnet,
    Devnet,
}

/// Chain id of the main network.
pub const MAINNET_CHAIN_HEX_ID: u8 = 0x2a;

/// Chain id of the test network.
pub const TESTNET_CHAIN_HEX_ID: u8 = 0x42;

pub open spec fn word_mainnet() -> Seq<u8> {
    seq![77u8, 97, 105, 110, 110, 101, 116]
}

pub open spec fn word_testnet() -> Seq<u8> {
    seq![84u8, 101, 115, 116, 110, 101, 116]
}

pub open spec fn word_devnet() -> Seq<u8> {
    seq![68u8, 101, 118, 110, 101, 116]
}

pub open spec fn word_linear_fee() -> Seq<u8> {
    seq![76u8, 105, 110, 101, 97, 114, 70, 101, 101]
}

/// Whether the bytes of `s` are `word`.
pub fn str_is(s: &str, word: &Vec<u8>) -> (r: bool)
    ensures
        r == (s.spec_bytes() == word@),
{
    bytes_equal(s.as_bytes(), word.as_slice())
}

/// The network named `name` ("Mainnet", "Testnet" or "Devnet").
pub fn network_from_str(name: &str) -> (r: Result<Network, Error>)
    ensures
        r == (if name.spec_bytes() == word_mainnet() {
            Ok::<Network, Error>(Network::Mainnet)
        } else if name.spec_bytes() == word_testnet() {
            Ok(Network::Testnet)
        } else if name.spec_bytes() == word_devnet() {
            Ok(Network::Devnet)
        } else {
            Err(Error::InvalidArgument)
        }),
{
    let mainnet: Vec<u8> = vec![77u8, 97, 105, 110, 110, 101, 116];
    let testnet: Vec<u8> = vec![84u8, 101, 115, 116, 110, 101, 116];
    let devnet: Vec<u8> = vec![68u8, 101, 118, 110, 101, 116];
    assert(mainnet@ =~= word_mainnet());
    assert(testnet@ =~= word_testnet());
    assert(devnet@ =~= word_devnet());
    if str_is(name, &mainnet) {
        Ok(Network::Mainnet)
    } else if str_is(name, &testnet) {
        Ok(Network::Testnet)
    } else if str_is(name, &devnet) {
        Ok(Network::Devnet)
    } else {
        Err(Error::InvalidArgument)
    }
}

/// The network of a chain id: main and test networks have fixed ids, any other id
/// is a development network.
pub fn network_from_chain_hex_id(chain_hex_id: u8) -> (r: Network)
    ensures
        r == (if chain_hex_id == MAINNET_CHAIN_HEX_ID {
            Network::Mainnet
        } else if chain_hex_id == TESTNET_CHAIN_HEX_ID {
            Network::Testnet
        } else {
            Network::Devnet
        }),
{
    if chain_hex_id == MAINNET_CHAIN_HEX_ID {
        Network::Mainnet
    } else if chain_hex_id == TESTNET_CHAIN_HEX_ID {
        Network::Testnet
    } else {
        Network::Devnet
    }
}

/// The chain id held in a one-byte buffer.
pub fn chain_hex_id_from_vec(chain_hex_id: &[u8]) -> (r: Result<u8, Error>)
    ensures
        r == (if chain_hex_id@.len() == 1 {
            Ok::<u8, Error>(chain_hex_id@[0])
        } else {
            Err(Error::InvalidArgument)
        }),
{
    if chain_hex_id.len() != 1 {
        return Err(Error::InvalidArgument);
    }
    Ok(chain_hex_id[0])
}

/// The chain id written as two hexadecimal characters.
pub fn chain_hex_id_from_str(text: &str) -> (r: Result<u8, Error>)
    ensures
        match hex_bytes(text.spec_bytes()) {
            Some(b) => r == (if b.len() == 1 {
                Ok::<u8, Error>(b[0])
            } else {
                Err(Error::InvalidArgument)
            }),
            None => r == Err::<u8, Error>(Error::DecodingError),
        },
{
    let bytes = match decode_hex(text) {
        Some(b) => b,
        None => return Err(Error::DecodingError),
    };
    chain_hex_id_from_vec(bytes.as_slice())
}

/// A 32-byte transaction id written in hexadecimal.
pub fn txid_from_str(tx_id: &str) -> (r: Result<Vec<u8>, Error>)
    ensures
        match hex_bytes(tx_id.spec_bytes()) {
            Some(b) => if b.len() == 32 {
                r matches Ok(id) && id@ == b
            } else {
                r == Err::<Vec<u8>, Error>(Error::DecodingError)
            },
            None => r == Err::<Vec<u8>, Error>(Error::DecodingError),
        },
{
    let id = match decode_hex(tx_id) {
        Some(b) => b,
        None => return Err(Error::DecodingError),
    };
    if id.len() != 32 {
        return Err(Error::DecodingError);
    }
    Ok(id)
}

// ---------------------------------------------------------------------------
// Decimal amounts with three fractional digits

pub open spec fn is_digit(c: u8) -> bool {
    48 <= c <= 57
}

pub open spec fn all_digits(s: Seq<u8>) -> bool {
    forall|i: int| 0 <= i < s.len() ==> is_digit(#[trigger] s[i])
}

/// The value of a string of decimal digits.
pub open spec fn digits_value(s: Seq<u8>) -> nat
    decreases s.len(),
{
    if s.len() == 0 {
        0
    } else {
        digits_value(s.drop_last()) * 10 + (s.last() - 48) as nat
    }
}

pub open spec fn pow10(n: nat) -> nat
    decreases n,
{
    if n == 0 {
        1
    } else {
        10 * pow10((n - 1) as nat)
    }
}

/// The value in thousandths of a decimal such as `12`, `0.5` or `3.125`, if it has
/// digits before any point, one to three digits after it, and fits in 64 bits.
pub open spec fn milli_value(s: Seq<u8>) -> Option<u64> {
    let v: int = if exists|d: int| 0 <= d < s.len() && s[d] == 46 {
        let d = choose|d: int|
            0 <= d < s.len() && s[d] == 46 && forall|k: int| 0 <= k < d ==> s[k] != 46;
        let whole = s.subrange(0, d);
        let frac = s.subrange(d + 1, s.len() as int);
        if whole.len() == 0 || !all_digits(whole) || frac.len() == 0 || frac.len() > 3
            || !all_digits(frac) {
            -1
        } else {
            (digits_value(whole) * 1000 + digits_value(frac) * pow10((3 - frac.len()) as nat)) as int
        }
    } else if s.len() == 0 || !all_digits(s) {
        -1
    } else {
        (digits_value(s) * 1000) as int
    };
    if 0 <= v <= u64::MAX {
        Some(v as u64)
    } else {
        None
    }
}

/// The value of the digits `s[from..to]`, or `None` if one is not a digit or the
/// value exceeds `limit`.
fn read_digits(s: &[u8], from: usize, to: usize, limit: u128) -> (r: Option<u128>)
    requires
        from <= to <= s@.len(),
        limit <= u64::MAX,
    ensures
        match r {
            Some(v) => all_digits(s@.subrange(from as int, to as int)) && v == digits_value(
                s@.subrange(from as int, to as int),
            ) && v <= limit,
            None => !all_digits(s@.subrange(from as int, to as int)) || digits_value(
                s@.subrange(from as int, to as int),
            ) > limit,
        },
{
    let mut v: u128 = 0;
    let mut i: usize = from;
    while i < to
        invariant
            from <= i <= to <= s@.len(),
            limit <= u64::MAX,
            all_digits(s@.subrange(from as int, i as int)),
            v == digits_value(s@.subrange(from as int, i as int)),
            v <= limit,
        decreases to - i,
    {
        let ghost prefix = s@.subrange(from as int, i as int);
        let ghost next = s@.subrange(from as int, i + 1);
        assert(next.drop_last() =~= prefix);
        let c = s[i];
        if c < 48 || c > 57 {
            assert(next[i - from] == c);
            proof {
                lemma_digits_prefix(s@.subrange(from as int, to as int), (i + 1 - from) as int);
                assert(s@.subrange(from as int, to as int).subrange(0, i + 1 - from) =~= next);
            }
            return None;
        }
        v = v * 10 + (c - 48) as u128;
        if v > limit {
            proof {
                lemma_digits_prefix(s@.subrange(from as int, to as int), (i + 1 - from) as int);
                assert(s@.subrange(from as int, to as int).subrange(0, i + 1 - from) =~= next);
            }
            return None;
        }
        i = i + 1;
    }
    Some(v)
}

/// A prefix of digits is worth no more than the whole, and is all digits if the
/// whole is.
proof fn lemma_digits_prefix(s: Seq<u8>, n: int)
    requires
        0 <= n <= s.len(),
    ensures
        all_digits(s) ==> all_digits(s.subrange(0, n)),
        all_digits(s) ==> digits_value(s.subrange(0, n)) <= digits_value(s),
    decreases s.len() - n,
{
    if n < s.len() {
        lemma_digits_prefix(s.drop_last(), n);
        assert(s.drop_last().subrange(0, n) =~= s.subrange(0, n));
        if all_digits(s) {
            assert(all_digits(s.drop_last()));
        }
    } else {
        assert(s.subrange(0, n) =~= s);
    }
}

/// An amount in thousandths written as a decimal with up to three fractional digits.
pub fn parse_milli(s: &str) -> (r: Result<u64, Error>)
    ensures
        match milli_value(s.spec_bytes()) {
            Some(v) => r == Ok::<u64, Error>(v),
            None => r == Err::<u64, Error>(Error::InvalidArgument),
        },
{
    let b = s.as_bytes();
    let ghost sb = b@;
    let mut d: usize = 0;
    while d < b.len() && b[d] != 46
        invariant
            d <= b@.len(),
            forall|k: int| 0 <= k < d ==> b@[k] != 46,
        decreases b@.len() - d,
    {
        d = d + 1;
    }
    let limit: u128 = 0xffff_ffff_ffff_ffff;
    if d == b.len() {
        assert(!(exists|k: int| 0 <= k < sb.len() && sb[k] == 46));
        assert(sb.subrange(0, sb.len() as int) =~= sb);
        if b.len() == 0 {
            return Err(Error::InvalidArgument);
        }
        match read_digits(b, 0, b.len(), limit / 1000) {
            Some(v) => Ok((v * 1000) as u64),
            None => {
                proof {
                    if all_digits(sb) {
                        let x = digits_value(sb);
                        assert(x * 1000 > u64::MAX) by (nonlinear_arith)
                            requires
                                x > 18446744073709551,
                        ;
                    }
                }
                Err(Error::InvalidArgument)
            },
        }
    } else {
        proof {
            assert(sb[d as int] == 46);
            assert(forall|k: int| 0 <= k < d ==> sb[k] != 46);
            let c = choose|k: int|
                0 <= k < sb.len() && sb[k] == 46 && forall|j: int| 0 <= j < k ==> sb[j] != 46;
            if c < d {
                assert(sb[c] != 46);
            }
            if c > d {
                assert(sb[d as int] != 46);
            }
            assert(c == d);
        }
        let flen = b.len() - d - 1;
        if d == 0 || flen == 0 || flen > 3 {
            return Err(Error::InvalidArgument);
        }
        let whole = match read_digits(b, 0, d, limit / 1000) {
            Some(v) => v,
            None => {
                proof {
                    let w = sb.subrange(0, d as int);
                    if all_digits(w) {
                        let x = digits_value(w);
                        assert(x * 1000 > u64::MAX) by (nonlinear_arith)
                            requires
                                x > 18446744073709551,
                        ;
                        assert(digits_value(w) * 1000 + digits_value(
                            sb.subrange(d + 1, sb.len() as int),
                        ) * pow10((3 - (sb.len() - d - 1)) as nat) >= digits_value(w) * 1000);
                    }
                }
                return Err(Error::InvalidArgument);
            },
        };
        let frac = match read_digits(b, d + 1, b.len(), 999) {
            Some(v) => v,
            None => {
                proof {
                    reveal_with_fuel(pow10, 4);
                    if all_digits(sb.subrange(d + 1, sb.len() as int)) {
                        let f = sb.subrange(d + 1, sb.len() as int);
                        lemma_digits_bound(f);
                        assert(pow10(f.len()) <= 1000);
                    }
                }
                return Err(Error::InvalidArgument);
            },
        };
        let scale: u128 = if flen == 1 {
            100
        } else if flen == 2 {
            10
        } else {
            1
        };
        proof {
            assert(pow10(0) == 1);
            assert(pow10(1) == 10);
            assert(pow10(2) == 100);
        }
        assert(frac <= 999);
        assert(scale <= 100);
        assert(whole <= 18446744073709551);
        assert(frac * scale <= 99900) by (nonlinear_arith)
            requires
                frac <= 999,
                scale <= 100,
        ;
        let v = whole * 1000 + frac * scale;
        if v > limit {
            return Err(Error::InvalidArgument);
        }
        Ok(v as u64)
    }
}

/// Three digits are worth at most 999.
proof fn lemma_digits_bound(s: Seq<u8>)
    requires
        all_digits(s),
        s.len() <= 3,
    ensures
        digits_value(s) < pow10(s.len()),
    decreases s.len(),
{
    if s.len() > 0 {
        lemma_digits_bound(s.drop_last());
        assert(all_digits(s.drop_last()));
    }
}

/// The linear fee model of a fee configuration whose algorithm is "LinearFee".
pub fn parse_linear_fee_config(algorithm: &str, constant: &str, coefficient: &str) -> (r: Result<
    LinearFee,
    Error,
>)
    ensures
        match (milli_value(constant.spec_bytes()), milli_value(coefficient.spec_bytes())) {
            (Some(c), Some(k)) => if algorithm.spec_bytes() == word_linear_fee() {
                r == Ok::<LinearFee, Error>(LinearFee { constant: c, coefficient: k })
            } else {
                r == Err::<LinearFee, Error>(Error::InvalidArgument)
            },
            _ => r == Err::<LinearFee, Error>(Error::InvalidArgument),
        },
{
    let word: Vec<u8> = vec![76u8, 105, 110, 101, 97, 114, 70, 101, 101];
    assert(word@ =~= word_linear_fee());
    if !str_is(algorithm, &word) {
        let _ = parse_milli(constant);
        return Err(Error::InvalidArgument);
    }
    let c = parse_milli(constant)?;
    let k = parse_milli(coefficient)?;
    Ok(LinearFee { constant: c, coefficient: k })
}

// ---------------------------------------------------------------------------
// Signing parameters of a multisignature address

/// The leaf count that `transfer_address_leaves` computes: for `d` from 1 to
/// `required`, `result` becomes `result / g * (n / (d / g))` with `g` the greatest
/// common divisor of `result` and `d`, and `n` counting down from `total`.
pub open spec fn leaves_from(n: nat, d: nat, required: nat, result: nat) -> Option<nat>
    decreases required + 1 - d,
{
    if d > required || d == 0 {
        Some(result)
    } else {
        let g = gcd_of(result, d);
        if g == 0 || d / g == 0 || n == 0 || d >= u64::MAX {
            None
        } else {
            let next = (result / g) * (n / (d / g));
            if next > u64::MAX {
                None
            } else {
                leaves_from((n - 1) as nat, d + 1, required, next)
            }
        }
    }
}

/// The number of ways to choose `required` signers out of `total`, computed term by
/// term with the help of `gcd` to keep intermediate values small; the count is kept
/// to 16 bits.
pub fn transfer_address_leaves(total_signers: u64, required_signers: u64) -> (r: Result<
    u16,
    Error,
>)
    ensures
        match leaves_from(total_signers as nat, 1, required_signers as nat, 1) {
            Some(v) => required_signers <= total_signers && r == Ok::<u16, Error>(#[verifier::truncate] (v as u16)),
            None => r == Err::<u16, Error>(Error::InvalidArgument),
        } || (required_signers > total_signers && r == Err::<u16, Error>(Error::InvalidArgument)),
{
    if required_signers > total_signers {
        return Err(Error::InvalidArgument);
    }
    let mut n: u64 = total_signers;
    let mut d: u64 = 1;
    let mut result: u64 = 1;
    while d <= required_signers
        invariant
            1 <= d,
            d <= required_signers + 1,
            n + d == total_signers + 1,
            required_signers <= total_signers,
            leaves_from(n as nat, d as nat, required_signers as nat, result as nat)
                == leaves_from(total_signers as nat, 1, required_signers as nat, 1),
        decreases required_signers + 1 - d,
    {
        let g = gcd_u64(result, d);
        if g == 0 || d / g == 0 || n == 0 || d == u64::MAX {
            return Err(Error::InvalidArgument);
        }
        let t = n / (d / g);
        let next = match (result / g).checked_mul(t) {
            Some(x) => x,
            None => return Err(Error::InvalidArgument),
        };
        result = next;
        d = d + 1;
        n = n - 1;
    }
    Ok(#[verifier::truncate] (result as u16))
}

} // verus!
