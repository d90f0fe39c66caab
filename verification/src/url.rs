//! Shortening urls with bitly: the settings it needs and the request that
//! asks bitly for a short url.

use vstd::prelude::*;
use vstd::string::StrSliceExecFns;

use crate::config::BitlyConfig;
use crate::text::append_str;

verus! {

/// The settings of the `url` command.
#[derive(Debug)]
pub struct Config {
    pub bitly: BitlyConfig,
}

/// Why the settings could not be had.
#[derive(Debug)]
pub enum ConfigError {
    ReadConfigError { config_path: String, root_err: String },
    ConfigDeserializeError { config_path: String, root_err: String },
}

impl ConfigError {
    /// The message of the error.
    pub fn to_string(&self) -> (s: String)
        ensures
            s@ == (match *self {
                ConfigError::ReadConfigError { config_path, root_err } => "Failed reading config "@
                    + config_path@ + " err "@ + root_err@,
                ConfigError::ConfigDeserializeError { config_path, root_err } =>
                    "Could not deserialize config please check "@ + config_path@ + " err "@
                    + root_err@,
            }),
    {
        let mut s = String::new();
        match self {
            ConfigError::ReadConfigError { config_path, root_err } => {
                append_str(&mut s, "Failed reading config ");
                append_str(&mut s, config_path.as_str());
                append_str(&mut s, " err ");
                append_str(&mut s, root_err.as_str());
            },
            ConfigError::ConfigDeserializeError { config_path, root_err } => {
                append_str(&mut s, "Could not deserialize config please check ");
                append_str(&mut s, config_path.as_str());
                append_str(&mut s, " err ");
                append_str(&mut s, root_err.as_str());
            },
        }
        s
    }
}

/// A byte that form encoding keeps as it is: `*`, `-`, `.`, `_`, digits and
/// ASCII letters.
pub open spec fn unchanged_byte(b: u8) -> bool {
    b == 42 || b == 45 || b == 46 || (48 <= b <= 57) || (65 <= b <= 90) || b == 95 || (97 <= b
        <= 122)
}

/// The uppercase hexadecimal digit of `n` (`0 <= n < 16`).
pub open spec fn hex_digit_upper(n: int) -> char {
    if n < 10 {
        (48 + n) as char
    } else {
        (55 + n) as char
    }
}

/// How form encoding writes one byte: kept, `+` for a space, else `%XX`
/// with uppercase hexadecimal digits.
pub open spec fn encoded_byte(b: u8) -> Seq<char> {
    if unchanged_byte(b) {
        seq![b as char]
    } else if b == 32 {
        seq!['+']
    } else {
        seq!['%', hex_digit_upper(b as int / 16), hex_digit_upper(b as int % 16)]
    }
}

/// The `application/x-www-form-urlencoded` text of the bytes.
pub open spec fn form_urlencoded(bytes: Seq<u8>) -> Seq<char>
    decreases bytes.len(),
{
    if bytes.len() == 0 {
        Seq::empty()
    } else {
        encoded_byte(bytes[0]) + form_urlencoded(bytes.drop_first())
    }
}

/// `url::form_urlencoded::byte_serialize`, its pieces put together: each byte
/// written as `encoded_byte` says, in order.
#[verifier::external_body]
fn byte_serialize(bytes: &[u8]) -> (r: String)
    ensures
        r@ == form_urlencoded(bytes@),
{
    url::form_urlencoded::byte_serialize(bytes).collect::<String>()
}

/// The bitly request that shortens `long_url`.
pub open spec fn shorten_url_text(api_token: Seq<char>, long_url: Seq<char>) -> Seq<char> {
    "https://api-ssl.bitly.com/v3/shorten?access_token="@ + api_token + "&longUrl="@
        + form_urlencoded(vstd::utf8::encode_utf8(long_url)) + "&format=txt"@
}

/// Shortens urls with bitly.
#[derive(Debug)]
pub struct LezehUrlClient {
    config: Config,
}

impl LezehUrlClient {
    pub fn new(config: Config) -> (c: LezehUrlClient)
        ensures
            c.api_token() == config.bitly.api_token@,
    {
        LezehUrlClient { config }
    }

    /// The bitly token the client uses.
    pub closed spec fn api_token(&self) -> Seq<char> {
        self.config.bitly.api_token@
    }

    /// The url of the bitly request that shortens `long_url`: its UTF-8 bytes
    /// form encoded into the `longUrl` parameter, the answer asked as text.
    pub fn shorten_request_url(&self, long_url: &str) -> (url: String)
        ensures
            url@ == shorten_url_text(self.api_token(), long_url@),
    {
        let bytes = long_url.as_bytes_vec();
        let encoded = byte_serialize(bytes.as_slice());
        let mut url = String::new();
        append_str(&mut url, "https://api-ssl.bitly.com/v3/shorten?access_token=");
        append_str(&mut url, self.config.bitly.api_token.as_str());
        append_str(&mut url, "&longUrl=");
        append_str(&mut url, encoded.as_str());
        append_str(&mut url, "&format=txt");
        url
    }
}

/// The `url` command.
pub struct UrlCli;

impl UrlCli {
    /// The bitly settings, or the message `Could not get bitly config` when
    /// there are none.
    pub fn bitly_config(config: &crate::config::Config) -> (r: Result<BitlyConfig, String>)
        ensures
            match config.bitly {
                Some(b) => r matches Ok(c) && c.api_token@ == b.api_token@,
                None => r matches Err(m) && m@ == "Could not get bitly config"@,
            },
    {
        match &config.bitly {
            Some(b) => Ok(b.clone()),
            None => Err("Could not get bitly config".to_owned()),
        }
    }
}

} // verus!
