//! Encoding commands: each renders as `KEYWORD[ token]*\r\n`.
use vstd::prelude::*;
use vstd::string::StringSliceAdditionalSpecFns;

use crate::reply::{BasicReply, Reply};

verus! {

/// The ASCII digit, or lower-case letter, for a value below 16.
pub open spec fn hex_digit(n: int) -> u8 {
    if n < 10 {
        (48 + n) as u8
    } else {
        (87 + n) as u8
    }
}

/// Lower-case hexadecimal, two digits for each byte.
pub open spec fn hex_of(b: Seq<u8>) -> Seq<u8>
    decreases b.len(),
{
    if b.len() == 0 {
        seq![]
    } else {
        hex_of(b.drop_last()) + seq![hex_digit(b.last() as int / 16), hex_digit(b.last() as int % 16)]
    }
}

/// The bytes between double quotes, with nothing escaped.
pub open spec fn quoted(b: Seq<u8>) -> Seq<u8> {
    seq![34u8] + b + seq![34u8]
}

/// The end of every command line.
pub open spec fn line_end() -> Seq<u8> {
    "\r\n".spec_bytes()
}

fn hex_digit_byte(n: u8) -> (r: u8)
    requires
        n < 16,
    ensures
        r == hex_digit(n as int),
{
    if n < 10 {
        48 + n
    } else {
        87 + n
    }
}

/// Appends `data` in lower-case hexadecimal, two digits for each byte.
pub fn write_hex(out: &mut Vec<u8>, data: &[u8])
    ensures
        final(out)@ == old(out)@ + hex_of(data@),
{
    let mut i: usize = 0;
    while i < data.len()
        invariant
            i <= data@.len(),
            out@ == old(out)@ + hex_of(data@.subrange(0, i as int)),
        decreases data@.len() - i,
    {
        let b = data[i];
        out.push(hex_digit_byte(b / 16));
        out.push(hex_digit_byte(b % 16));
        proof {
            let pre = data@.subrange(0, i + 1);
            assert(pre.drop_last() =~= data@.subrange(0, i as int));
        }
        i = i + 1;
    }
    assert(data@.subrange(0, data@.len() as int) =~= data@);
}

/// Appends `data` between double quotes. Nothing inside is escaped.
pub fn write_quoted(out: &mut Vec<u8>, data: &[u8])
    ensures
        final(out)@ == old(out)@ + quoted(data@),
{
    out.push(34u8);
    out.extend_from_slice(data);
    out.push(34u8);
    assert(out@ =~= old(out)@ + quoted(data@));
}

fn write_str(out: &mut Vec<u8>, s: &str)
    ensures
        final(out)@ == old(out)@ + s.spec_bytes(),
{
    out.extend_from_slice(s.as_bytes());
    assert(out@ =~= old(out)@ + s.spec_bytes());
}

/// A command that can be sent, with the shape of reply it expects.
pub trait Command {
    type Reply: Reply;

    /// The bytes that encode the command.
    spec fn wire(&self) -> Seq<u8>;

    /// Appends the encoded command to `out`.
    fn encode_into(&self, out: &mut Vec<u8>)
        ensures
            final(out)@ == old(out)@ + self.wire(),
    ;

    /// The encoded command.
    fn encode(&self) -> (r: Vec<u8>)
        ensures
            r@ == self.wire(),
    {
        let mut res: Vec<u8> = Vec::new();
        self.encode_into(&mut res);
        assert(res@ =~= self.wire());
        res
    }
}

// SETCONF
/// The `key="value"` tokens of a configuration change, each after a space.
pub open spec fn setconf_args(vs: Seq<(Seq<u8>, Seq<u8>)>) -> Seq<u8>
    decreases vs.len(),
{
    if vs.len() == 0 {
        seq![]
    } else {
        setconf_args(vs.drop_last()) + seq![32u8] + vs.last().0 + seq![61u8] + quoted(
            vs.last().1,
        )
    }
}

/// Sets configuration values.
#[derive(Debug, Clone)]
pub struct SetConf<'a> {
    values: Vec<(&'a str, &'a str)>,
}

impl<'a> View for SetConf<'a> {
    /// The bytes of each key and value, in the order they were added.
    type V = Seq<(Seq<u8>, Seq<u8>)>;

    closed spec fn view(&self) -> Seq<(Seq<u8>, Seq<u8>)> {
        self.values@.map_values(|p: (&'a str, &'a str)| (p.0.spec_bytes(), p.1.spec_bytes()))
    }
}

impl<'a> SetConf<'a> {
    /// A change of no values.
    pub fn new() -> (r: Self)
        ensures
            r@ == Seq::<(Seq<u8>, Seq<u8>)>::empty(),
    {
        let r = SetConf { values: Vec::new() };
        assert(r@ =~= Seq::<(Seq<u8>, Seq<u8>)>::empty());
        r
    }

    /// Adds `key` set to `val`.
    pub fn add(&mut self, key: &'a str, val: &'a str)
        ensures
            final(self)@ == old(self)@.push((key.spec_bytes(), val.spec_bytes())),
    {
        self.values.push((key, val));
        assert(self@ =~= old(self)@.push((key.spec_bytes(), val.spec_bytes())));
    }
}

impl<'a> Command for SetConf<'a> {
    type Reply = BasicReply;

    open spec fn wire(&self) -> Seq<u8> {
        "SETCONF".spec_bytes() + setconf_args(self@) + line_end()
    }

    fn encode_into(&self, out: &mut Vec<u8>) {
        write_str(out, "SETCONF");
        let mut i: usize = 0;
        while i < self.values.len()
            invariant
                i <= self@.len(),
                self@.len() == self.values@.len(),
                out@ == old(out)@ + "SETCONF".spec_bytes() + setconf_args(
                    self@.subrange(0, i as int),
                ),
            decreases self@.len() - i,
        {
            let (k, v) = self.values[i];
            assert(self@[i as int] == (k.spec_bytes(), v.spec_bytes()));
            out.push(32u8);
            write_str(out, k);
            out.push(61u8);
            write_quoted(out, v.as_bytes());
            proof {
                let pre = self@.subrange(0, i + 1);
                assert(pre.drop_last() =~= self@.subrange(0, i as int));
                assert(out@ =~= old(out)@ + "SETCONF".spec_bytes() + setconf_args(pre));
            }
            i = i + 1;
        }
        assert(self@.subrange(0, self@.len() as int) =~= self@);
        write_str(out, "\r\n");
    }
}

// GETCONF
/// The names of a configuration query, each after a space.
pub open spec fn getconf_args(ns: Seq<Seq<u8>>) -> Seq<u8>
    decreases ns.len(),
{
    if ns.len() == 0 {
        seq![]
    } else {
        getconf_args(ns.drop_last()) + seq![32u8] + ns.last()
    }
}

/// Queries configuration values.
#[derive(Debug, Clone)]
pub struct GetConf<'a> {
    names: Vec<&'a str>,
}

impl<'a> View for GetConf<'a> {
    /// The bytes of each name, in the order they were added.
    type V = Seq<Seq<u8>>;

    closed spec fn view(&self) -> Seq<Seq<u8>> {
        self.names@.map_values(|n: &'a str| n.spec_bytes())
    }
}

impl<'a> GetConf<'a> {
    /// A query of no names.
    pub fn new() -> (r: Self)
        ensures
            r@ == Seq::<Seq<u8>>::empty(),
    {
        let r = GetConf { names: Vec::new() };
        assert(r@ =~= Seq::<Seq<u8>>::empty());
        r
    }

    /// Adds the name `key`.
    pub fn add(&mut self, key: &'a str)
        ensures
            final(self)@ == old(self)@.push(key.spec_bytes()),
    {
        self.names.push(key);
        assert(self@ =~= old(self)@.push(key.spec_bytes()));
    }
}

impl<'a> Command for GetConf<'a> {
    type Reply = BasicReply;

    open spec fn wire(&self) -> Seq<u8> {
        "GETCONF".spec_bytes() + getconf_args(self@) + line_end()
    }

    fn encode_into(&self, out: &mut Vec<u8>) {
        write_str(out, "GETCONF");
        let mut i: usize = 0;
        while i < self.names.len()
            invariant
                i <= self@.len(),
                self@.len() == self.names@.len(),
                out@ == old(out)@ + "GETCONF".spec_bytes() + getconf_args(
                    self@.subrange(0, i as int),
                ),
            decreases self@.len() - i,
        {
            let k = self.names[i];
            assert(self@[i as int] == k.spec_bytes());
            out.push(32u8);
            write_str(out, k);
            proof {
                let pre = self@.subrange(0, i + 1);
                assert(pre.drop_last() =~= self@.subrange(0, i as int));
                assert(out@ =~= old(out)@ + "GETCONF".spec_bytes() + getconf_args(pre));
            }
            i = i + 1;
        }
        assert(self@.subrange(0, self@.len() as int) =~= self@);
        write_str(out, "\r\n");
    }
}

// AUTHENTICATE
/// Authenticates the connection with a cookie, a password or nothing.
pub struct Authenticate<'a> {
    authdata: &'a [u8],
    is_password: bool,
}

impl<'a> View for Authenticate<'a> {
    /// The secret, and whether it is a password (sent quoted) rather than a
    /// cookie (sent in hexadecimal).
    type V = (Seq<u8>, bool);

    closed spec fn view(&self) -> (Seq<u8>, bool) {
        (self.authdata@, self.is_password)
    }
}

impl<'a> Authenticate<'a> {
    /// Authenticates with the bytes of a cookie.
    pub fn with_cookie(cookie: &'a [u8]) -> (r: Self)
        ensures
            r@ == (cookie@, false),
    {
        Authenticate { authdata: cookie, is_password: false }
    }

    /// Authenticates with a password.
    pub fn with_passwd(passwd: &'a [u8]) -> (r: Self)
        ensures
            r@ == (passwd@, true),
    {
        Authenticate { authdata: passwd, is_password: true }
    }

    /// Authenticates with an empty cookie.
    pub fn with_nothing() -> (r: Self)
        ensures
            r@ == (Seq::<u8>::empty(), false),
    {
        proof {
            reveal_strlit("");
        }
        let r = Authenticate::with_cookie("".as_bytes());
        assert(r@.0 =~= Seq::<u8>::empty());
        r
    }
}

impl<'a> Command for Authenticate<'a> {
    type Reply = BasicReply;

    open spec fn wire(&self) -> Seq<u8> {
        "AUTHENTICATE ".spec_bytes() + (if self@.1 {
            quoted(self@.0)
        } else {
            hex_of(self@.0)
        }) + line_end()
    }

    fn encode_into(&self, out: &mut Vec<u8>) {
        write_str(out, "AUTHENTICATE ");
        if self.is_password {
            write_quoted(out, self.authdata);
        } else {
            write_hex(out, self.authdata);
        }
        write_str(out, "\r\n");
        assert(out@ =~= old(out)@ + self.wire());
    }
}

// PROTOCOLINFO
/// Asks which protocol versions and authentication methods are offered.
pub struct ProtocolInfo;

impl ProtocolInfo {
    /// The query.
    pub fn new() -> (r: ProtocolInfo) {
        ProtocolInfo
    }
}

impl Command for ProtocolInfo {
    type Reply = BasicReply;

    open spec fn wire(&self) -> Seq<u8> {
        "PROTOCOLINFO 1\r\n".spec_bytes()
    }

    fn encode_into(&self, out: &mut Vec<u8>) {
        write_str(out, "PROTOCOLINFO 1\r\n");
    }
}

// AUTHCHALLENGE
/// The number of bytes in a nonce that `AuthChallenge::new` draws.
pub const NONCE_LEN: usize = 32;

/// Relies on `rand::RngCore::try_fill_bytes`: it fills the buffer in place, so
/// on success the buffer keeps the length it was made with; a generator that
/// cannot fill it reports an error, which gives `None`.
#[verifier::external_body]
fn random_bytes<R: rand::Rng>(rng: &mut R, len: usize) -> (r: Option<Vec<u8>>)
    ensures
        r matches Some(v) ==> v@.len() == len,
{
    let mut bytes = vec![0u8; len];
    match rng.try_fill_bytes(&mut bytes) {
        Ok(()) => Some(bytes),
        Err(_) => None,
    }
}

/// Starts the safe-cookie authentication exchange with a client nonce.
#[derive(Debug, Clone)]
pub struct AuthChallenge {
    nonce: Vec<u8>,
}

impl View for AuthChallenge {
    /// The client nonce.
    type V = Seq<u8>;

    closed spec fn view(&self) -> Seq<u8> {
        self.nonce@
    }
}

impl AuthChallenge {
    /// A challenge with a nonce of `NONCE_LEN` bytes drawn from `rng`, or
    /// `None` where the generator fails to give them.
    pub fn new<R: rand::Rng>(rng: &mut R) -> (r: Option<AuthChallenge>)
        ensures
            r matches Some(c) ==> c@.len() == NONCE_LEN,
    {
        match random_bytes(rng, NONCE_LEN) {
            Some(nonce) => Some(AuthChallenge::with_nonce(nonce.as_slice())),
            None => None,
        }
    }

    /// A challenge with a copy of `use_nonce` as its nonce.
    pub fn with_nonce(use_nonce: &[u8]) -> (r: AuthChallenge)
        ensures
            r@ == use_nonce@,
    {
        let mut nonce: Vec<u8> = Vec::new();
        nonce.extend_from_slice(use_nonce);
        assert(nonce@ =~= use_nonce@);
        AuthChallenge { nonce }
    }
}

impl Command for AuthChallenge {
    type Reply = BasicReply;

    open spec fn wire(&self) -> Seq<u8> {
        "AUTHCHALLENGE ".spec_bytes() + hex_of(self@) + line_end()
    }

    fn encode_into(&self, out: &mut Vec<u8>) {
        write_str(out, "AUTHCHALLENGE ");
        write_hex(out, self.nonce.as_slice());
        write_str(out, "\r\n");
        assert(out@ =~= old(out)@ + self.wire());
    }
}

} // verus!
