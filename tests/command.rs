use torctl::command::{
    write_hex, write_quoted, AuthChallenge, Authenticate, Command, GetConf, ProtocolInfo, SetConf,
    NONCE_LEN,
};

// Encodes a command and reads the bytes as text.
fn to_string<C: Command>(command: &C) -> String {
    String::from_utf8(command.encode()).unwrap()
}

fn to_hex(data: &[u8]) -> Vec<u8> {
    let mut result = Vec::new();
    write_hex(&mut result, data);
    result
}

#[test]
fn test_write_hex() {
    assert_eq!(b"".to_vec(), to_hex(b""));
    assert_eq!(b"abcd".to_vec(), to_hex(b"\xab\xcd"));
    assert_eq!(b"416e20617363696920737472696e672e".to_vec(), to_hex(b"An ascii string."));
}

#[test]
fn test_write_quoted() {
    let mut result = Vec::new();
    write_quoted(&mut result, b"hello world");
    assert_eq!(result, b"\"hello world\"".to_vec());
}

#[test]
fn write_quoted_escapes_nothing() {
    let mut result = b"X".to_vec();
    write_quoted(&mut result, b"a\"b\r\n");
    assert_eq!(result, b"X\"a\"b\r\n\"".to_vec());
}

#[test]
fn write_hex_appends() {
    let mut result = b"k=".to_vec();
    write_hex(&mut result, &[0x00, 0x0f, 0xf0, 0xff, 0x9a]);
    assert_eq!(result, b"k=000ff0ff9a".to_vec());
}

#[test]
fn test_setconf() {
    let mut command = SetConf::new();
    assert_eq!(to_string(&command), "SETCONF\r\n");

    command.add("log", "info");
    command.add("cheese", "gruyere");

    assert_eq!(to_string(&command), "SETCONF log=\"info\" cheese=\"gruyere\"\r\n");
}

#[test]
fn test_getconf() {
    let mut command = GetConf::new();
    assert_eq!(to_string(&command), "GETCONF\r\n");
    command.add("cheese");
    command.add("scambledEggs");

    assert_eq!(to_string(&command), "GETCONF cheese scambledEggs\r\n");
}

#[test]
fn getconf_two_names() {
    let mut command = GetConf::new();
    command.add("ORPort");
    command.add("SocksPort");
    assert_eq!(to_string(&command), "GETCONF ORPort SocksPort\r\n");
}

#[test]
fn encode_into_appends() {
    let mut command = GetConf::new();
    command.add("ORPort");
    let mut out = b"QUIT\r\n".to_vec();
    command.encode_into(&mut out);
    assert_eq!(out, b"QUIT\r\nGETCONF ORPort\r\n".to_vec());
}

#[test]
fn test_authenticate_cookie() {
    let command = Authenticate::with_cookie(b"hello");
    assert_eq!(to_string(&command), "AUTHENTICATE 68656c6c6f\r\n")
}

#[test]
fn authenticate_cookie_dead() {
    let command = Authenticate::with_cookie(&[0xde, 0xad]);
    assert_eq!(to_string(&command), "AUTHENTICATE dead\r\n")
}

#[test]
fn test_authenticate_passwd() {
    let command = Authenticate::with_passwd(b"hello world");
    assert_eq!(to_string(&command), "AUTHENTICATE \"hello world\"\r\n")
}

#[test]
fn test_authenticate_empty() {
    let command = Authenticate::with_nothing();
    assert_eq!(to_string(&command), "AUTHENTICATE \r\n")
}

#[test]
fn test_protocolinfo() {
    assert_eq!(to_string(&ProtocolInfo::new()), "PROTOCOLINFO 1\r\n");
}

#[test]
fn test_authchallenge_nonce() {
    let command = AuthChallenge::with_nonce(b"arbitrary_string");
    assert_eq!(to_string(&command), "AUTHCHALLENGE 6172626974726172795f737472696e67\r\n");
}

#[test]
fn authchallenge_random_nonce() {
    let mut rng = rand::thread_rng();
    let a = to_string(&AuthChallenge::new(&mut rng).unwrap());
    let b = to_string(&AuthChallenge::new(&mut rng).unwrap());
    assert_eq!(a.len(), "AUTHCHALLENGE ".len() + 2 * NONCE_LEN + 2);
    assert!(a.starts_with("AUTHCHALLENGE "));
    assert!(a.ends_with("\r\n"));
    let digits = &a["AUTHCHALLENGE ".len()..a.len() - 2];
    assert!(digits.bytes().all(|c| c.is_ascii_digit() || (b'a'..=b'f').contains(&c)));
    assert_ne!(a, b);
}

// A generator whose source has run dry.
struct DryRng;

impl rand::RngCore for DryRng {
    fn next_u32(&mut self) -> u32 {
        0
    }
    fn next_u64(&mut self) -> u64 {
        0
    }
    fn fill_bytes(&mut self, _dest: &mut [u8]) {}
    fn try_fill_bytes(&mut self, _dest: &mut [u8]) -> Result<(), rand::Error> {
        Err(rand::Error::new("no entropy left"))
    }
}

#[test]
fn authchallenge_failing_generator() {
    assert!(AuthChallenge::new(&mut DryRng).is_none());
}
