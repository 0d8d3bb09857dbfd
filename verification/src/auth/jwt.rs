//! The claims of a JSON Web Token.

use vstd::prelude::*;
use vstd::string::StringExecFns;

verus! {

/// Error type of claims that cannot be made.
#[derive(Debug, PartialEq, Eq)]
pub enum Error {
    /// The expiry time lies before the issue time.
    InvalidExpiry { issued_at: u64, expiry: u64 },
    /// The time from which the token is valid lies before the issue time.
    InvalidNbf { issued_at: u64, nbf: u64 },
    /// The system time is before the UNIX epoch.
    InvalidSystemTime,
}

/// A point in time, as std has it.
#[verifier::external_type_specification]
#[verifier::external_body]
pub struct ExSystemTime(std::time::SystemTime);

/// The time of the clock of the system.
///
/// Trusted: `SystemTime::now` of std. Nothing is claimed of the time that comes back.
#[verifier::external_body]
pub(crate) fn system_time_now() -> (r: std::time::SystemTime) {
    std::time::SystemTime::now()
}

/// The time that passed from the UNIX epoch to `time`, if `time` does not lie before it.
///
/// Trusted: `SystemTime::duration_since` of std. Nothing is claimed of the duration, since
/// points in time are opaque to the verifier.
#[verifier::external_body]
pub(crate) fn since_unix_epoch(time: &std::time::SystemTime) -> (r: Option<core::time::Duration>) {
    match time.duration_since(std::time::UNIX_EPOCH) {
        Ok(elapsed) => Some(elapsed),
        Err(_) => None,
    }
}

/// The whole seconds of a duration.
///
/// Trusted: `Duration::as_secs` of std. Nothing is claimed of the number, since the duration
/// is opaque to the verifier.
#[verifier::external_body]
pub(crate) fn duration_secs(duration: &core::time::Duration) -> (r: u64) {
    duration.as_secs()
}

/// What [`Claims`] hold.
pub struct ClaimsView {
    pub iss: Seq<char>,
    pub sub: Seq<char>,
    pub aud: Seq<char>,
    pub exp: Option<u64>,
    pub nbf: u64,
    pub iat: u64,
}

/// The claims of a token: who issued it, for whom and for what, and when it is valid.
#[derive(Debug)]
pub struct Claims {
    /// Issuer.
    pub iss: String,
    /// Subject.
    pub sub: String,
    /// Audience.
    pub aud: String,
    /// Expiration time, in seconds since the UNIX epoch.
    pub exp: Option<u64>,
    /// The time from which the token is valid, in seconds since the UNIX epoch.
    pub nbf: u64,
    /// Issue time, in seconds since the UNIX epoch.
    pub iat: u64,
}

impl View for Claims {
    type V = ClaimsView;

    open spec fn view(&self) -> ClaimsView {
        ClaimsView {
            iss: self.iss@,
            sub: self.sub@,
            aud: self.aud@,
            exp: self.exp,
            nbf: self.nbf,
            iat: self.iat,
        }
    }
}

impl Claims {
    /// Claims issued at the time `now`, valid from then on and without expiry.
    pub fn issued(iss: &str, sub: &str, aud: &str, now: u64) -> (r: Self)
        ensures
            r@ == (ClaimsView { iss: iss@, sub: sub@, aud: aud@, exp: None, nbf: now, iat: now }),
    {
        Claims {
            iss: String::from_str(iss),
            sub: String::from_str(sub),
            aud: String::from_str(aud),
            exp: None,
            nbf: now,
            iat: now,
        }
    }

    /// Claims issued now, valid from now on and without expiry. Fails if the clock of the
    /// system stands before the UNIX epoch.
    pub fn new(iss: &str, sub: &str, aud: &str) -> (r: Result<Self, Error>)
        ensures
            match r {
                Ok(claims) => claims@ == (ClaimsView {
                    iss: iss@,
                    sub: sub@,
                    aud: aud@,
                    exp: None,
                    nbf: claims.iat,
                    iat: claims.iat,
                }),
                Err(e) => e == Error::InvalidSystemTime,
            },
    {
        let now = system_time_now();
        match since_unix_epoch(&now) {
            Some(elapsed) => Ok(Self::issued(iss, sub, aud, duration_secs(&elapsed))),
            None => Err(Error::InvalidSystemTime),
        }
    }

    /// Lets the claims expire at the time `exp`, which may not lie before the issue time.
    pub fn expires_after(self, exp: u64) -> (r: Result<Self, Error>)
        ensures
            match r {
                Ok(claims) => exp >= self.iat && claims@ == (ClaimsView {
                    exp: Some(exp),
                    ..self@
                }),
                Err(e) => exp < self.iat && e == (Error::InvalidExpiry {
                    issued_at: self.iat,
                    expiry: exp,
                }),
            },
    {
        if exp < self.iat {
            return Err(Error::InvalidExpiry { issued_at: self.iat, expiry: exp });
        }
        let mut claims = self;
        claims.exp = Some(exp);
        Ok(claims)
    }

    /// Lets the claims expire after a duration of `secs` whole seconds, counted from the
    /// issue time. Fails if that time is too late to be written down; the error then holds
    /// the time cut to 64 bits.
    pub fn expires_after_duration(self, secs: u64) -> (r: Result<Self, Error>)
        ensures
            match r {
                Ok(claims) => self.iat + secs <= u64::MAX && claims@ == (ClaimsView {
                    exp: Some((self.iat + secs) as u64),
                    ..self@
                }),
                Err(e) => self.iat + secs > u64::MAX && e == (Error::InvalidExpiry {
                    issued_at: self.iat,
                    expiry: (self.iat + secs - 0x1_0000_0000_0000_0000) as u64,
                }),
            },
    {
        match self.iat.checked_add(secs) {
            Some(exp) => {
                let mut claims = self;
                claims.exp = Some(exp);
                Ok(claims)
            },
            None => Err(
                Error::InvalidExpiry { issued_at: self.iat, expiry: self.iat.wrapping_add(secs) },
            ),
        }
    }

    /// Makes the claims valid from the time `nbf` on, which may not lie before the issue
    /// time.
    pub fn valid_after(self, nbf: u64) -> (r: Result<Self, Error>)
        ensures
            match r {
                Ok(claims) => nbf >= self.iat && claims@ == (ClaimsView { nbf, ..self@ }),
                Err(e) => nbf < self.iat && e == (Error::InvalidNbf { issued_at: self.iat, nbf }),
            },
    {
        if nbf < self.iat {
            return Err(Error::InvalidNbf { issued_at: self.iat, nbf });
        }
        let mut claims = self;
        claims.nbf = nbf;
        Ok(claims)
    }

    /// Makes the claims valid once a duration of `secs` whole seconds has passed from the
    /// issue time. Fails if that time is too late to be written down; the error then holds
    /// the time cut to 64 bits.
    pub fn valid_after_duration(self, secs: u64) -> (r: Result<Self, Error>)
        ensures
            match r {
                Ok(claims) => self.iat + secs <= u64::MAX && claims@ == (ClaimsView {
                    nbf: (self.iat + secs) as u64,
                    ..self@
                }),
                Err(e) => self.iat + secs > u64::MAX && e == (Error::InvalidNbf {
                    issued_at: self.iat,
                    nbf: (self.iat + secs - 0x1_0000_0000_0000_0000) as u64,
                }),
            },
    {
        match self.iat.checked_add(secs) {
            Some(nbf) => {
                let mut claims = self;
                claims.nbf = nbf;
                Ok(claims)
            },
            None => Err(
                Error::InvalidNbf { issued_at: self.iat, nbf: self.iat.wrapping_add(secs) },
            ),
        }
    }

    /// The issuer of the token.
    pub fn issuer(&self) -> (r: &str)
        ensures
            r@ == self@.iss,
    {
        self.iss.as_str()
    }

    /// The subject of the token.
    pub fn subject(&self) -> (r: &str)
        ensures
            r@ == self@.sub,
    {
        self.sub.as_str()
    }

    /// The audience of the token.
    pub fn audience(&self) -> (r: &str)
        ensures
            r@ == self@.aud,
    {
        self.aud.as_str()
    }

    /// The expiration time of the token, if it has one.
    pub fn expiry(&self) -> (r: Option<u64>)
        ensures
            r == self@.exp,
    {
        self.exp
    }

    /// The time from which the token is valid.
    pub fn not_before(&self) -> (r: u64)
        ensures
            r == self@.nbf,
    {
        self.nbf
    }

    /// The time at which the token was issued.
    pub fn issued_at(&self) -> (r: u64)
        ensures
            r == self@.iat,
    {
        self.iat
    }
}

/// A JSON Web Token in its compact text form.
#[derive(Clone, Debug)]
pub struct JsonWebToken(pub String);

impl JsonWebToken {
    /// The text of the token.
    pub fn as_str(&self) -> (r: &str)
        ensures
            r@ == self.0@,
    {
        self.0.as_str()
    }
}

} // verus!
