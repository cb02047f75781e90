//! The server's certificate: how long it is valid, when it expires, and the fingerprint by which a
//! client knows it again.
use std::sync::Arc;

use vstd::prelude::*;
use vstd::string::*;

use crate::json_writer::{dec_is_digits, dec_value};
use crate::paths::{join, joined};
use crate::remote::digest::{sha256, sha256_of};
use crate::remote::server::tellable;
use crate::text::{
    all_digits,
    dec,
    dec_text,
    hex2,
    hex_char,
    is_digit,
    is_space,
    opt_str_view,
    parse_uint,
    parse_uint_text,
    trim,
    trim_end,
    trim_start,
    trim_text,
};

verus! {

/// How long a fresh certificate is valid, in days.
pub const CERT_VALIDITY_DAYS: u64 = 825;

/// A self-signed certificate and its private key, made once and kept.
pub struct ServerCert {
    cert_der: Vec<u8>,
    key_der: Vec<u8>,
    /// When the certificate expires, in nanoseconds since the Unix epoch; `None` when that was not
    /// recorded.
    expires_at: Option<i128>,
}

/// The time that a recorded expiry stands for: whole seconds since the Unix epoch, with white space
/// around them. Anything else is an unknown expiry, not a made-up one.
pub open spec fn expiry_of(text: Option<Seq<char>>) -> Option<int> {
    match text {
        Some(t) => match parse_uint(trim(t), u64::MAX as nat) {
            Some(secs) => Some(secs as int * 1_000_000_000),
            None => None,
        },
        None => None,
    }
}

/// The bytes in hexadecimal, colons between them.
pub open spec fn colon_hex(bytes: Seq<u8>) -> Seq<char>
    decreases bytes.len(),
{
    if bytes.len() == 0 {
        Seq::empty()
    } else if bytes.len() == 1 {
        hex2(bytes[0])
    } else {
        colon_hex(bytes.drop_last()) + seq![':'] + hex2(bytes.last())
    }
}

fn colon_hex_text(bytes: &Vec<u8>) -> (r: String)
    ensures
        r@ == colon_hex(bytes@),
{
    let mut out = String::new();
    let mut i: usize = 0;
    assert(bytes@.take(0) =~= Seq::<u8>::empty());
    while i < bytes.len()
        invariant
            i <= bytes@.len(),
            out@ == colon_hex(bytes@.take(i as int)),
        decreases bytes@.len() - i,
    {
        let b: u8 = bytes[i];
        proof {
            let next = bytes@.take(i as int + 1);
            assert(next.drop_last() =~= bytes@.take(i as int));
            assert(next.last() == b);
        }
        let ghost known = out@;
        if i > 0 {
            out.push(':');
        }
        out.push(hex_char(b / 16));
        out.push(hex_char(b % 16));
        proof {
            if i > 0 {
                assert(out@ =~= known + seq![':'] + hex2(b));
            } else {
                assert(out@ =~= hex2(b));
                assert(bytes@.take(1)[0] == b);
            }
        }
        i += 1;
    }
    assert(bytes@.take(i as int) =~= bytes@);
    out
}

/// `n` bytes in hexadecimal with colons between them are `3n - 1` characters long.
pub proof fn colon_hex_length(bytes: Seq<u8>)
    requires
        bytes.len() > 0,
    ensures
        colon_hex(bytes).len() == 3 * bytes.len() - 1,
    decreases bytes.len(),
{
    if bytes.len() > 1 {
        colon_hex_length(bytes.drop_last());
    }
}

/// A certificate with its private key, and when it expires in nanoseconds since the Unix epoch.
pub struct Kept {
    pub cert: Seq<u8>,
    pub key: Seq<u8>,
    pub expiry: Option<int>,
}

/// The certificate that is found in what was stored, with the expiry recorded beside it; none where
/// the certificate or the key is missing or empty.
pub open spec fn found(stored: Option<(Seq<u8>, Seq<u8>)>, expires: Option<Seq<char>>) -> Option<Kept> {
    match stored {
        Some((cert, key)) => if cert.len() > 0 && key.len() > 0 {
            Some(Kept { cert, key, expiry: expiry_of(expires) })
        } else {
            None
        },
        None => None,
    }
}

/// What was stored.
pub open spec fn stored_view(stored: Option<(Vec<u8>, Vec<u8>)>) -> Option<(Seq<u8>, Seq<u8>)> {
    match stored {
        Some((cert, key)) => Some((cert@, key@)),
        None => None,
    }
}

/// The fingerprint of a certificate: its SHA-256 digest, in hexadecimal with colons.
pub open spec fn fingerprint_of(cert: Seq<u8>) -> Seq<char> {
    colon_hex(sha256_of(cert))
}

impl ServerCert {
    /// The certificate, its key and its expiry.
    pub open spec fn content(&self) -> Kept {
        Kept {
            cert: self.cert(),
            key: self.key(),
            expiry: match self.expiry() {
                Some(t) => Some(t as int),
                None => None,
            },
        }
    }

    /// The certificate.
    pub closed spec fn cert(&self) -> Seq<u8> {
        self.cert_der@
    }

    /// The private key.
    pub closed spec fn key(&self) -> Seq<u8> {
        self.key_der@
    }

    /// When the certificate expires.
    pub closed spec fn expiry(&self) -> Option<i128> {
        self.expires_at
    }

    /// The certificate that was kept, with its key and the expiry recorded beside it; `None` when
    /// the certificate or the key is empty, so that a new one has to be made.
    pub fn load(cert_der: Vec<u8>, key_der: Vec<u8>, expires: Option<&str>) -> (r: Option<Self>)
        ensures
            match r {
                Some(c) => found(Some((cert_der@, key_der@)), opt_str_view(expires)) == Some(
                    c.content(),
                ),
                None => found(Some((cert_der@, key_der@)), opt_str_view(expires)) is None,
            },
    {
        if cert_der.len() == 0 || key_der.len() == 0 {
            return None;
        }
        let expires_at = match expires {
            Some(t) => match parse_uint_text(trim_text(t).as_str(), u64::MAX) {
                Some(secs) => Some(secs as i128 * 1_000_000_000),
                None => None,
            },
            None => None,
        };
        Some(ServerCert { cert_der, key_der, expires_at })
    }

    /// A certificate just made, which expires at `expires_secs` after the Unix epoch.
    pub fn fresh(cert_der: Vec<u8>, key_der: Vec<u8>, expires_secs: u64) -> (r: Self)
        ensures
            r.cert() == cert_der@,
            r.key() == key_der@,
            r.expiry() == Some((expires_secs * 1_000_000_000) as i128),
    {
        ServerCert { cert_der, key_der, expires_at: Some(expires_secs as i128 * 1_000_000_000) }
    }

    /// When this certificate stops being valid, if known.
    pub fn expires_at(&self) -> (r: Option<i128>)
        ensures
            r == self.expiry(),
    {
        self.expires_at
    }

    /// The certificate's bytes.
    pub fn cert_der(&self) -> (r: &Vec<u8>)
        ensures
            r@ == self.cert(),
    {
        &self.cert_der
    }

    /// The private key's bytes.
    pub fn key_der(&self) -> (r: &Vec<u8>)
        ensures
            r@ == self.key(),
    {
        &self.key_der
    }

    /// The SHA-256 digest of the certificate, in hexadecimal with colons. A person compares it with
    /// what a client shows, and the client pins it.
    pub fn fingerprint(&self) -> (r: String)
        ensures
            r@ == fingerprint_of(self.cert()),
            r@.len() == 95,
    {
        let digest = sha256(self.cert_der.as_slice());
        proof {
            colon_hex_length(digest@);
        }
        colon_hex_text(&digest)
    }

    /// Where the certificate lives, below this user's configuration directory.
    pub fn default_dir(config_dir: &str) -> (r: String)
        ensures
            r@ == joined(config_dir@, "lumen"@),
    {
        join(config_dir, "lumen")
    }
}

/// The whole second at which a certificate made at `now` starts to be valid: a day before, against
/// clocks that run behind.
pub open spec fn starts_at(now: int) -> int {
    (now - 86_400_000_000_000) / 1_000_000_000
}

/// The whole second at which a certificate made at `now` stops being valid.
pub open spec fn ends_at(now: int) -> int {
    (now + 71_280_000_000_000_000) / 1_000_000_000
}

/// From when until when a certificate made at `now` is valid, in whole seconds since the Unix
/// epoch: from a day before, against clocks that run behind, until the validity is over. A clock
/// that reads before the epoch gives none.
pub fn validity(now: i128) -> (r: Result<(u64, u64), String>)
    requires
        tellable(now as int),
        tellable(now + 71_280_000_000_000_000),
    ensures
        match r {
            Ok((from, until)) => now >= 86_400_000_000_000 && from == starts_at(now as int) && until
                == ends_at(now as int),
            Err(e) => now < 86_400_000_000_000 && e@
                == "system clock is before the unix epoch: second time provided was later than self"@,
        },
{
    if now < 86_400_000_000_000 {
        return Err(
            "system clock is before the unix epoch: second time provided was later than self".to_owned(),
        );
    }
    let from: u64 = ((now - 86_400_000_000_000) / 1_000_000_000) as u64;
    let until: u64 = ((now + CERT_VALIDITY_DAYS as i128 * 86_400_000_000_000) / 1_000_000_000) as u64;
    Ok((from, until))
}

/// An error of `rcgen`.
#[verifier::external_type_specification]
#[verifier::external_body]
pub struct ExCertificateError(rcgen::Error);

/// A date and time of `time`.
#[verifier::external_type_specification]
#[verifier::external_body]
pub struct ExOffsetDateTime(time::OffsetDateTime);

/// A date that `time` cannot represent.
#[verifier::external_type_specification]
#[verifier::external_body]
pub struct ExComponentRange(time::error::ComponentRange);

/// A server configuration of `rustls`.
#[verifier::external_type_specification]
#[verifier::external_body]
pub struct ExServerConfig(rustls::ServerConfig);

/// An error of `rustls`.
#[verifier::external_type_specification]
#[verifier::external_body]
pub struct ExTlsError(rustls::Error);

/// `time::OffsetDateTime::from_unix_timestamp` gives a date for exactly the seconds since the Unix
/// epoch that lie in the years -9999 to 9999.
pub assume_specification[ time::OffsetDateTime::from_unix_timestamp ](timestamp: i64) -> (r: Result<
    time::OffsetDateTime,
    time::error::ComponentRange,
>)
    ensures
        r is Ok <==> -377705116800 <= timestamp <= 253402300799,
;

/// What an error of `rcgen` says of itself. Nothing is claimed of the text.
#[verifier::external_body]
fn certificate_error_text(e: &rcgen::Error) -> (r: String) {
    e.to_string()
}

/// What `time` says of a date that it cannot represent. Nothing is claimed of the text.
#[verifier::external_body]
fn date_error_text(e: &time::error::ComponentRange) -> (r: String) {
    e.to_string()
}

/// What an error of `rustls` says of itself. Nothing is claimed of the text.
#[verifier::external_body]
fn tls_error_text(e: &rustls::Error) -> (r: String) {
    e.to_string()
}

/// Whether `rustls` takes a certificate and a private key for a pair: it can read both, and the key
/// is the certificate's.
pub uninterp spec fn is_pair(cert: Seq<u8>, key: Seq<u8>) -> bool;

/// `rustls::ServerConfig::builder_with_provider` and `with_single_cert` make a configuration that
/// presents one certificate to every client and asks clients for none. They make one only of a
/// certificate and a key that fit each other, which the bytes alone decide. That they make one of
/// every such pair is not claimed: loading an elliptic curve key draws random bytes, and fails where
/// the system has none. Nothing is claimed of the configuration, which shows nothing of itself.
#[verifier::external_body]
fn config_for(cert: Vec<u8>, key: Vec<u8>) -> (r: Result<rustls::ServerConfig, rustls::Error>)
    ensures
        r is Ok ==> is_pair(cert@, key@),
{
    let chain = vec![rustls::pki_types::CertificateDer::from(cert)];
    let pkcs8 = rustls::pki_types::PrivatePkcs8KeyDer::from(key);
    let provider = Arc::new(rustls::crypto::ring::default_provider());
    rustls::ServerConfig::builder_with_provider(provider)
        .with_safe_default_protocol_versions()?
        .with_no_client_auth()
        .with_single_cert(chain, rustls::pki_types::PrivateKeyDer::Pkcs8(pkcs8))
}

/// Whether a certificate is one that `rcgen` writes for a name, valid from one second since the Unix
/// epoch until another.
pub uninterp spec fn certifies(
    cert: Seq<u8>,
    name: Seq<char>,
    not_before: int,
    not_after: int,
) -> bool;

/// `rcgen::KeyPair::generate` makes a new random key pair, `rcgen::CertificateParams::new` the
/// parameters of a certificate for one name, and `self_signed` the certificate that the key pair
/// signs for itself. Gives the bytes of the certificate and of its private key; the outer error is
/// that of the key pair, the inner one that of the signature. A short ASCII name is always taken, and
/// so are dates from 1970 to 9999. The certificate is for that name and those dates, and `rustls`
/// takes it and its key for a pair; neither is empty. The key and the signature are random: whether they can be had,
/// and what their bytes are, is not claimed.
#[verifier::external_body]
fn issue(name: &str, not_before: i64, not_after: i64) -> (r: Result<
    Result<(Vec<u8>, Vec<u8>), rcgen::Error>,
    rcgen::Error,
>)
    requires
        name@.len() <= 63,
        forall|i: int| 0 <= i < name@.len() ==> (#[trigger] name@[i] as u32) < 128,
        0 <= not_before <= not_after <= 253402300799,
    ensures
        match r {
            Ok(Ok((cert, key))) => certifies(
                cert@,
                name@,
                not_before as int,
                not_after as int,
            ) && is_pair(cert@, key@) && cert@.len() > 0 && key@.len() > 0,
            _ => true,
        },
{
    let key = rcgen::KeyPair::generate()?;
    let mut params = rcgen::CertificateParams::new(vec![name.to_string()])?;
    params.not_before = time::OffsetDateTime::from_unix_timestamp(not_before).map_err(
        |_| rcgen::Error::Time,
    )?;
    params.not_after = time::OffsetDateTime::from_unix_timestamp(not_after).map_err(
        |_| rcgen::Error::Time,
    )?;
    match params.self_signed(&key) {
        Ok(cert) => Ok(Ok((cert.der().to_vec(), key.serialize_der()))),
        Err(e) => Ok(Err(e)),
    }
}

fn explained(what: &str, why: &str) -> (r: String)
    ensures
        r@ == what@ + why@,
{
    let mut s = what.to_owned();
    s.append(why);
    s
}

/// The last second that a certificate's date can stand for.
pub open spec fn last_date() -> int {
    253402300799
}

fn date_of(secs: u64) -> (r: Result<i64, String>)
    requires
        secs <= i64::MAX,
    ensures
        match r {
            Ok(d) => d == secs && secs <= last_date(),
            Err(e) => secs > last_date() && (dec(secs as nat)
                + " is not a representable certificate date: "@).is_prefix_of(e@),
        },
{
    match time::OffsetDateTime::from_unix_timestamp(secs as i64) {
        Ok(_) => Ok(secs as i64),
        Err(e) => {
            let mut s = dec_text(secs as u128);
            s.append(" is not a representable certificate date: ");
            let ghost known = s@;
            s.append(date_error_text(&e).as_str());
            assert(known.is_prefix_of(s@));
            Err(s)
        },
    }
}

/// Whether a certificate made at a time can hold its dates.
pub open spec fn datable(now: int) -> bool {
    now >= 86_400_000_000_000 && starts_at(now) <= last_date() && ends_at(now) <= last_date()
}

/// Why no certificate could be made at a time. Where the clock reads a time that no certificate can
/// hold, that is why; elsewhere the key or the signature failed.
pub open spec fn is_failure(e: Seq<char>, now: int) -> bool {
    if now < 86_400_000_000_000 {
        e == "system clock is before the unix epoch: second time provided was later than self"@
    } else if starts_at(now) > last_date() {
        (dec(starts_at(now) as nat) + " is not a representable certificate date: "@).is_prefix_of(e)
    } else if ends_at(now) > last_date() {
        (dec(ends_at(now) as nat) + " is not a representable certificate date: "@).is_prefix_of(e)
    } else {
        ||| "cannot generate a TLS key: "@.is_prefix_of(e)
        ||| "cannot generate a TLS certificate: "@.is_prefix_of(e)
    }
}

/// Whether a certificate is one made at a time: it is for this server, valid from a day before until
/// the validity is over, which is its expiry, and it has its own key.
pub open spec fn made_at(c: Kept, now: int) -> bool {
    &&& datable(now)
    &&& c.cert.len() > 0
    &&& c.key.len() > 0
    &&& c.expiry == Some(ends_at(now) * 1_000_000_000)
    &&& certifies(c.cert, "lumen-serve"@, starts_at(now), ends_at(now))
    &&& is_pair(c.cert, c.key)
}

/// What comes of an attempt to issue a certificate that expires at `until`.
pub fn issued(
    made: Result<Result<(Vec<u8>, Vec<u8>), rcgen::Error>, rcgen::Error>,
    until: u64,
) -> (r: Result<(ServerCert, u64), String>)
    ensures
        match made {
            Ok(Ok((cert, key))) => match r {
                Ok((c, secs)) => c.cert() == cert@ && c.key() == key@ && secs == until && c.expiry()
                    == Some((until * 1_000_000_000) as i128),
                Err(_) => false,
            },
            Ok(Err(_)) => match r {
                Ok(_) => false,
                Err(e) => "cannot generate a TLS certificate: "@.is_prefix_of(e@),
            },
            Err(_) => match r {
                Ok(_) => false,
                Err(e) => "cannot generate a TLS key: "@.is_prefix_of(e@),
            },
        },
{
    match made {
        Ok(Ok((cert_der, key_der))) => Ok((ServerCert::fresh(cert_der, key_der, until), until)),
        Ok(Err(e)) => {
            let why = certificate_error_text(&e);
            assert("cannot generate a TLS certificate: "@.is_prefix_of(
                "cannot generate a TLS certificate: "@ + why@,
            ));
            Err(explained("cannot generate a TLS certificate: ", why.as_str()))
        },
        Err(e) => {
            let why = certificate_error_text(&e);
            assert("cannot generate a TLS key: "@.is_prefix_of("cannot generate a TLS key: "@ + why@));
            Err(explained("cannot generate a TLS key: ", why.as_str()))
        },
    }
}

/// A new self-signed certificate with its own key, valid from a day ago until the validity is over,
/// and when it expires in whole seconds since the Unix epoch. Whether a key and a signature can be
/// had is not known beforehand; a clock that reads a time which no certificate can hold never gives
/// one.
pub fn generate(now: i128) -> (r: Result<(ServerCert, u64), String>)
    requires
        tellable(now as int),
        tellable(now + 71_280_000_000_000_000),
    ensures
        match r {
            Ok((c, secs)) => made_at(c.content(), now as int) && secs == ends_at(now as int),
            Err(e) => is_failure(e@, now as int),
        },
{
    let (from, until): (u64, u64) = match validity(now) {
        Ok(v) => v,
        Err(e) => {
            return Err(e);
        },
    };
    let not_before: i64 = match date_of(from) {
        Ok(d) => d,
        Err(e) => {
            return Err(e);
        },
    };
    let not_after: i64 = match date_of(until) {
        Ok(d) => d,
        Err(e) => {
            return Err(e);
        },
    };
    proof {
        reveal_strlit("lumen-serve");
    }
    issued(issue("lumen-serve", not_before, not_after), until)
}

impl ServerCert {
    /// The certificate that was stored, with the expiry recorded beside it, or else a new one, and
    /// with that the record of its expiry, which is to be stored beside it.
    pub fn load_or_generate(
        stored: Option<(Vec<u8>, Vec<u8>)>,
        expires: Option<&str>,
        now: i128,
    ) -> (r: Result<(Self, Option<String>), String>)
        requires
            found(stored_view(stored), opt_str_view(expires)) is None ==> tellable(now as int)
                && tellable(now + 71_280_000_000_000_000),
        ensures
            match found(stored_view(stored), opt_str_view(expires)) {
                Some(kept) => match r {
                    Ok((c, record)) => c.content() == kept && record is None,
                    Err(_) => false,
                },
                None => match r {
                    Ok((c, Some(record))) => made_at(c.content(), now as int) && record@ == dec(
                        ends_at(now as int) as nat,
                    ),
                    Ok((_, None)) => false,
                    Err(e) => is_failure(e@, now as int),
                },
            },
    {
        if let Some((cert_der, key_der)) = stored {
            if let Some(kept) = ServerCert::load(cert_der, key_der, expires) {
                return Ok((kept, None));
            }
        }
        match generate(now) {
            Ok((made, secs)) => Ok((made, Some(dec_text(secs as u128)))),
            Err(e) => Err(e),
        }
    }
}

fn copy_bytes(b: &Vec<u8>) -> (r: Vec<u8>)
    ensures
        r@ == b@,
{
    let mut out: Vec<u8> = Vec::new();
    let mut i: usize = 0;
    while i < b.len()
        invariant
            i <= b@.len(),
            out@ == b@.take(i as int),
        decreases b@.len() - i,
    {
        out.push(b[i]);
        i += 1;
        assert(out@ =~= b@.take(i as int));
    }
    assert(b@.take(i as int) =~= b@);
    out
}

/// What comes of an attempt to make a server configuration: the configuration itself, or a remark
/// that ends in what the outside crate said.
pub fn configured(made: Result<rustls::ServerConfig, rustls::Error>) -> (r: Result<
    Arc<rustls::ServerConfig>,
    String,
>)
    ensures
        match made {
            Ok(c) => match r {
                Ok(shared) => *shared == c,
                Err(_) => false,
            },
            Err(_) => match r {
                Ok(_) => false,
                Err(e) => "cannot build a TLS server config: "@.is_prefix_of(e@),
            },
        },
{
    match made {
        Ok(c) => Ok(Arc::new(c)),
        Err(e) => {
            let why = tls_error_text(&e);
            assert("cannot build a TLS server config: "@.is_prefix_of(
                "cannot build a TLS server config: "@ + why@,
            ));
            Err(explained("cannot build a TLS server config: ", why.as_str()))
        },
    }
}

impl ServerCert {
    /// A server configuration that presents this certificate to every connection. There is none
    /// where the key does not fit the certificate.
    pub fn server_config(&self) -> (r: Result<Arc<rustls::ServerConfig>, String>)
        ensures
            match r {
                Ok(_) => is_pair(self.cert(), self.key()),
                Err(e) => "cannot build a TLS server config: "@.is_prefix_of(e@),
            },
    {
        configured(config_for(copy_bytes(&self.cert_der), copy_bytes(&self.key_der)))
    }
}

/// Digits have no white space around them.
proof fn digits_need_no_trimming(s: Seq<char>)
    requires
        all_digits(s),
    ensures
        trim(s) == s,
{
    assert(is_digit(s[0]) && !is_space(s[0]));
    assert(is_digit(s[s.len() - 1]) && !is_space(s[s.len() - 1]));
    assert(trim_start(s) == s);
    assert(trim_end(s) == s);
}

/// The recorded expiry reads back exactly: a fresh certificate and the same one loaded later report
/// the same expiry.
pub proof fn expiry_survives_a_restart(expires_secs: u64)
    ensures
        expiry_of(Some(dec(expires_secs as nat))) == Some(expires_secs * 1_000_000_000),
{
    let d = dec(expires_secs as nat);
    dec_is_digits(expires_secs as nat);
    dec_value(expires_secs as nat);
    digits_need_no_trimming(d);
    assert(is_digit(d[0]));
}

/// A certificate that was made and stored is found again at the next start: the same bytes, the same
/// fingerprint and the same expiry, a whole number of seconds. Where the record of the expiry is
/// lost, the expiry is unknown and the rest is the same.
pub proof fn a_certificate_is_found_again(made: Kept, now: int)
    requires
        made_at(made, now),
    ensures
        found(Some((made.cert, made.key)), Some(dec(ends_at(now) as nat))) == Some(made),
        found(Some((made.cert, made.key)), None) == Some(Kept { expiry: None, ..made }),
        made.expiry == Some(ends_at(now) * 1_000_000_000),
        forall|expires: Option<Seq<char>>|
            match #[trigger] found(Some((made.cert, made.key)), expires) {
                Some(again) => fingerprint_of(again.cert) == fingerprint_of(made.cert),
                None => false,
            },
{
    expiry_survives_a_restart(ends_at(now) as u64);
}

/// A fingerprint shows each byte in its place: two digits and a colon for each.
pub proof fn fingerprints_show_every_byte(bytes: Seq<u8>, i: int)
    requires
        0 <= i < bytes.len(),
    ensures
        colon_hex(bytes).len() == 3 * bytes.len() - 1,
        colon_hex(bytes).subrange(3 * i, 3 * i + 2) == hex2(bytes[i]),
        i + 1 < bytes.len() ==> colon_hex(bytes)[3 * i + 2] == ':',
    decreases bytes.len(),
{
    colon_hex_length(bytes);
    if bytes.len() > 1 {
        let front = bytes.drop_last();
        colon_hex_length(front);
        if i < front.len() {
            fingerprints_show_every_byte(front, i);
            assert(colon_hex(bytes).subrange(3 * i, 3 * i + 2) =~= colon_hex(front).subrange(
                3 * i,
                3 * i + 2,
            ));
        } else {
            assert(colon_hex(bytes).subrange(3 * i, 3 * i + 2) =~= hex2(bytes[i]));
        }
    } else {
        assert(colon_hex(bytes).subrange(0, 2) =~= hex2(bytes[0]));
    }
}

/// A certificate is valid when it is made, from a day before, and for less than the longest time that
/// clients accept, which is 825 days and the day before.
pub proof fn certificates_are_valid_when_made(now: int)
    requires
        now >= 86_400_000_000_000,
    ensures
        starts_at(now) * 1_000_000_000 <= now - 86_400_000_000_000,
        now < ends_at(now) * 1_000_000_000,
        ends_at(now) - starts_at(now) <= 826 * 86_400,
        ends_at(now) - starts_at(now) >= 825 * 86_400,
{
}

} // verus!
