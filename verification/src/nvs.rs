//! Credential storage: which keys hold what, and what is made of stored bytes.

use vstd::prelude::*;
use vstd::slice::slice_to_vec;
use vstd::utf8::{
    decode_utf8, encode_utf8, encode_utf8_decode_utf8, encode_utf8_valid_utf8, valid_utf8,
};

use crate::text::from_utf8;

verus! {

/// The namespace that holds credentials.
pub const WIFI_NS: &'static str = "wifi";

pub const SSID_KEY: &'static str = "ssid";

pub const PW_KEY: &'static str = "password";

/// The longest value that is read back.
pub const VALUE_MAX_LEN: usize = 128;

/// One entry to store.
#[derive(Debug)]
pub struct Entry {
    pub key: &'static str,
    pub value: Vec<u8>,
}

/// The entries that store credentials, in the order they are written.
pub fn save_wifi_credentials(ssid: &str, password: &str) -> (entries: Vec<Entry>)
    ensures
        entries@.len() == 2,
        entries@[0].key@ == SSID_KEY@,
        entries@[0].value@ == encode_utf8(ssid@),
        entries@[1].key@ == PW_KEY@,
        entries@[1].value@ == encode_utf8(password@),
{
    vec![
        Entry { key: SSID_KEY, value: slice_to_vec(ssid.as_bytes()) },
        Entry { key: PW_KEY, value: slice_to_vec(password.as_bytes()) },
    ]
}

/// The keys that forgetting credentials removes, in order.
pub fn clear_wifi_credentials() -> (keys: [&'static str; 2])
    ensures
        keys@[0]@ == SSID_KEY@,
        keys@[1]@ == PW_KEY@,
{
    [SSID_KEY, PW_KEY]
}

/// Why credentials could not be loaded.
#[derive(Clone, Copy, Debug, PartialEq, Eq, Structural)]
pub enum LoadError {
    /// The storage failed with this error.
    Storage(i32),
    /// A stored value is not text.
    NotText,
}

/// What reading a key gives: its text, or nothing if it is not there.
pub open spec fn text_read(raw: Result<Option<Seq<u8>>, i32>) -> Result<
    Option<Seq<char>>,
    LoadError,
> {
    match raw {
        Ok(Some(bytes)) => if valid_utf8(bytes) {
            Ok(Some(decode_utf8(bytes)))
        } else {
            Err(LoadError::NotText)
        },
        Ok(None) => Ok(None),
        Err(e) => Err(LoadError::Storage(e)),
    }
}

/// The bytes that reading a key gave, for contracts.
pub open spec fn raw_view(raw: Result<Option<Vec<u8>>, i32>) -> Result<Option<Seq<u8>>, i32> {
    match raw {
        Ok(Some(bytes)) => Ok(Some(bytes@)),
        Ok(None) => Ok(None),
        Err(e) => Err(e),
    }
}

/// Makes text of what reading a key gave.
pub fn read_to_string(raw: &Result<Option<Vec<u8>>, i32>) -> (r: Result<Option<String>, LoadError>)
    ensures
        match text_read(raw_view(*raw)) {
            Ok(Some(text)) => r matches Ok(Some(s)) && s@ == text,
            Ok(None) => r == Ok::<Option<String>, LoadError>(None),
            Err(e) => r == Err::<Option<String>, LoadError>(e),
        },
{
    match raw {
        Ok(Some(bytes)) => match from_utf8(bytes.as_slice()) {
            Some(s) => Ok(Some(s.to_owned())),
            None => Err(LoadError::NotText),
        },
        Ok(None) => Ok(None),
        Err(e) => Err(LoadError::Storage(*e)),
    }
}

/// What loading credentials gives, from what reading the two keys gave.
pub open spec fn loads(
    ssid: Result<Option<Seq<u8>>, i32>,
    password: Result<Option<Seq<u8>>, i32>,
) -> Result<Option<(Seq<char>, Seq<char>)>, LoadError> {
    match (text_read(ssid), text_read(password)) {
        (Err(e), _) => Err(e),
        (Ok(_), Err(e)) => Err(e),
        (Ok(Some(name)), Ok(Some(secret))) => Ok(Some((name, secret))),
        _ => Ok(None),
    }
}

/// Loaded credentials, for contracts.
pub open spec fn loaded_view(loaded: Result<Option<(String, String)>, LoadError>) -> Result<
    Option<(Seq<char>, Seq<char>)>,
    LoadError,
> {
    match loaded {
        Ok(Some((ssid, password))) => Ok(Some((ssid@, password@))),
        Ok(None) => Ok(None),
        Err(e) => Err(e),
    }
}

/// Credentials from what reading the two keys gave. The name is read first, so
/// that its failure is the one reported; both have to be there.
pub fn load_wifi_credentials(
    ssid: &Result<Option<Vec<u8>>, i32>,
    password: &Result<Option<Vec<u8>>, i32>,
) -> (r: Result<Option<(String, String)>, LoadError>)
    ensures
        loaded_view(r) == loads(raw_view(*ssid), raw_view(*password)),
{
    let ssid: Option<String> = match read_to_string(ssid) {
        Ok(ssid) => ssid,
        Err(e) => {
            return Err(e);
        },
    };
    let password: Option<String> = match read_to_string(password) {
        Ok(password) => password,
        Err(e) => {
            return Err(e);
        },
    };
    match (ssid, password) {
        (Some(ssid), Some(password)) => Ok(Some((ssid, password))),
        _ => Ok(None),
    }
}

/// What the device does after it starts.
#[derive(Clone, Copy, Debug, PartialEq, Eq, Structural)]
pub enum Mode {
    /// It asks for the credentials of a network.
    Provisioning,
    /// It is a drawing pad.
    Main,
}

/// The mode that goes with loaded credentials.
pub open spec fn mode_for(
    loaded: Result<Option<(Seq<char>, Seq<char>)>, LoadError>,
) -> Mode {
    match loaded {
        Ok(Some(_)) => Mode::Main,
        _ => Mode::Provisioning,
    }
}

/// Chooses the mode: without credentials, or where they cannot be loaded, they
/// have to be asked for.
pub fn choose_mode(loaded: &Result<Option<(String, String)>, LoadError>) -> (mode: Mode)
    ensures
        mode == mode_for(loaded_view(*loaded)),
{
    match loaded {
        Ok(Some(_)) => Mode::Main,
        Ok(None) => Mode::Provisioning,
        Err(_) => Mode::Provisioning,
    }
}

/// What was saved is what is loaded, as long as the storage gives back the bytes
/// that were written: each text comes back as it was, and the device is a drawing
/// pad from then on.
pub proof fn law_saved_is_loaded(ssid: Seq<char>, password: Seq<char>)
    ensures
        text_read(Ok(Some(encode_utf8(ssid)))) == Ok::<Option<Seq<char>>, LoadError>(Some(ssid)),
        text_read(Ok(Some(encode_utf8(password)))) == Ok::<Option<Seq<char>>, LoadError>(
            Some(password),
        ),
        loads(Ok(Some(encode_utf8(ssid))), Ok(Some(encode_utf8(password)))) == Ok::<
            Option<(Seq<char>, Seq<char>)>,
            LoadError,
        >(Some((ssid, password))),
        mode_for(loads(Ok(Some(encode_utf8(ssid))), Ok(Some(encode_utf8(password)))))
            == Mode::Main,
{
    encode_utf8_valid_utf8(ssid);
    encode_utf8_decode_utf8(ssid);
    encode_utf8_valid_utf8(password);
    encode_utf8_decode_utf8(password);
}

/// Without both values there are no credentials, and they are asked for.
pub proof fn law_cleared_is_absent(other: Result<Option<Seq<u8>>, i32>)
    ensures
        !(loads(Ok(None), other) matches Ok(Some(_))),
        !(loads(other, Ok(None)) matches Ok(Some(_))),
        mode_for(loads(Ok(None), other)) == Mode::Provisioning,
        mode_for(loads(other, Ok(None))) == Mode::Provisioning,
{
}

/// Credentials are there exactly when both values are and are text. Otherwise
/// the name is looked at first: its failure is the one reported, and the
/// password's only where the name gave none.
pub proof fn law_load_outcomes(
    ssid: Result<Option<Vec<u8>>, i32>,
    password: Result<Option<Vec<u8>>, i32>,
)
    ensures
        ({
            let r = loads(raw_view(ssid), raw_view(password));
            let name_is_garbled = ssid matches Ok(Some(a)) && !valid_utf8(a@);
            let secret_is_garbled = password matches Ok(Some(b)) && !valid_utf8(b@);
            &&& ssid matches Err(e) ==> r == Err::<
                Option<(Seq<char>, Seq<char>)>,
                LoadError,
            >(LoadError::Storage(e))
            &&& name_is_garbled ==> r == Err::<Option<(Seq<char>, Seq<char>)>, LoadError>(
                LoadError::NotText,
            )
            &&& ssid is Ok && !name_is_garbled ==> {
                &&& password matches Err(e) ==> r == Err::<
                    Option<(Seq<char>, Seq<char>)>,
                    LoadError,
                >(LoadError::Storage(e))
                &&& secret_is_garbled ==> r == Err::<Option<(Seq<char>, Seq<char>)>, LoadError>(
                    LoadError::NotText,
                )
                &&& password is Ok && !secret_is_garbled ==> {
                    &&& r is Ok
                    &&& r->Ok_0 is Some <==> ssid->Ok_0 is Some && password->Ok_0 is Some
                    &&& r->Ok_0 is Some ==> r->Ok_0->0 == (
                        decode_utf8(ssid->Ok_0->0@),
                        decode_utf8(password->Ok_0->0@),
                    )
                }
            }
        }),
{
}

/// One value: text where it is there and is text, nothing where it is not there,
/// and an error otherwise.
pub proof fn law_read_outcomes(raw: Result<Option<Vec<u8>>, i32>)
    ensures
        raw matches Ok(Some(bytes)) ==> {
            &&& valid_utf8(bytes@) ==> text_read(raw_view(raw)) == Ok::<
                Option<Seq<char>>,
                LoadError,
            >(Some(decode_utf8(bytes@)))
            &&& !valid_utf8(bytes@) ==> text_read(raw_view(raw)) == Err::<
                Option<Seq<char>>,
                LoadError,
            >(LoadError::NotText)
        },
        raw == Ok::<Option<Vec<u8>>, i32>(None) ==> text_read(raw_view(raw)) == Ok::<
            Option<Seq<char>>,
            LoadError,
        >(None),
        raw matches Err(e) ==> text_read(raw_view(raw)) == Err::<Option<Seq<char>>, LoadError>(
            LoadError::Storage(e),
        ),
{
}

/// The device is a drawing pad exactly when credentials were loaded, whatever
/// they are.
pub proof fn law_mode(loaded: Result<Option<(String, String)>, LoadError>)
    ensures
        mode_for(loaded_view(loaded)) == Mode::Main <==> loaded matches Ok(Some(_)),
        mode_for(loaded_view(loaded)) == Mode::Provisioning <==> !(loaded matches Ok(Some(_))),
        loaded matches Ok(Some(pair)) ==> loaded_view(loaded) == Ok::<
            Option<(Seq<char>, Seq<char>)>,
            LoadError,
        >(Some((pair.0@, pair.1@))),
        loaded matches Err(e) ==> loaded_view(loaded) == Err::<
            Option<(Seq<char>, Seq<char>)>,
            LoadError,
        >(e),
{
}

/// Saving and loading: where the storage gives back what it was given under each
/// key, loading gives back what was saved.
pub proof fn law_save_and_load(
    ssid: &str,
    password: &str,
    saved: Vec<Entry>,
    name: Vec<u8>,
    secret: Vec<u8>,
    loaded: Result<Option<(String, String)>, LoadError>,
)
    requires
        call_ensures(save_wifi_credentials, (ssid, password), saved),
        name@ == saved@[0].value@,
        secret@ == saved@[1].value@,
        call_ensures(
            load_wifi_credentials,
            (
                &Ok::<Option<Vec<u8>>, i32>(Some(name)),
                &Ok::<Option<Vec<u8>>, i32>(Some(secret)),
            ),
            loaded,
        ),
    ensures
        saved@.len() == 2,
        saved@[0].key@ == SSID_KEY@,
        saved@[1].key@ == PW_KEY@,
        loaded matches Ok(Some(pair)) && pair.0@ == ssid@ && pair.1@ == password@,
{
    law_saved_is_loaded(ssid@, password@);
}

} // verus!
