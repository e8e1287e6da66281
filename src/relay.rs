use crate::cipher::{decode, encode, CipherError};
use crate::store::{Identity, PartnerInfo, SessionKey, SessionStore};
use vstd::prelude::*;

verus! {

/// Text to be delivered to a user.
pub struct SendText {
    pub to: Identity,
    pub body: String,
}

/// The fixed text that stands in for a message body that could not be read.
pub open spec fn notice_text(e: CipherError) -> Seq<char> {
    match e {
        CipherError::DecodeError => "Ошибка расшифровки на стороне сервера."@,
        CipherError::InvalidUtf8 => "Ошибка: Некорректное UTF-8 сообщение"@,
    }
}

/// The fixed text for `e`.
pub fn notice(e: CipherError) -> (r: String)
    ensures
        r@ == notice_text(e),
{
    match e {
        CipherError::DecodeError => "Ошибка расшифровки на стороне сервера.".to_owned(),
        CipherError::InvalidUtf8 => "Ошибка: Некорректное UTF-8 сообщение".to_owned(),
    }
}

/// The body to deliver for a decoding result: the text, or the fixed notice
/// that stands in for it.
pub fn body_or_notice(r: Result<String, CipherError>) -> (b: String)
    ensures
        r matches Ok(s) ==> b@ == s@,
        r matches Err(e) ==> b@ == notice_text(e),
{
    match r {
        Ok(s) => s,
        Err(e) => notice(e),
    }
}

/// Passes `text` through the session cipher: encodes it under `key` and
/// decodes the payload again at once, so that the text itself comes out.
/// No ciphertext leaves this function: the relay forwards plain text.
pub fn round_trip(text: &str, key: &SessionKey) -> (r: String)
    ensures
        r@ == text@,
{
    let payload = encode(text, key);
    body_or_notice(decode(payload.as_slice(), key))
}

/// The message that relays `text` to the partner that `info` names.
pub fn relay_to_partner(info: &PartnerInfo, text: &str) -> (r: SendText)
    ensures
        r.to == info.partner_id,
        r.body@ == text@,
{
    SendText { to: info.partner_id, body: round_trip(text, &info.key) }
}

/// Relays a text message of `from` to their partner; a message of a user
/// without a partner is dropped.
pub fn relay(store: &SessionStore, from: Identity, text: &str) -> (r: Option<SendText>)
    ensures
        !store@.is_paired(from) ==> r is None,
        store@.is_paired(from) ==> (r matches Some(m) && m.to == store@.partner(from) && m.body@ == text@),
{
    match store.get_partner(from) {
        Some(info) => Some(relay_to_partner(&info, text)),
        None => None,
    }
}

} // verus!
