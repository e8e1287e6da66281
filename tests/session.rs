use anon_relay::cipher::{decode, encode, session_iv, text_from_plaintext, CipherError};
use anon_relay::relay::{body_or_notice, notice, relay, relay_to_partner, round_trip};
use anon_relay::store::{LeaveOutcome, PartnerInfo, SessionError, SessionStore};

fn key_of(seed: u8) -> [u8; 32] {
    let mut k = [0u8; 32];
    for (i, b) in k.iter_mut().enumerate() {
        *b = seed.wrapping_mul(31).wrapping_add(i as u8);
    }
    k
}

#[test]
fn first_pair_is_the_two_oldest_requests() {
    let mut s = SessionStore::new();
    assert_eq!(s.join(10), Ok(None));
    assert_eq!(s.join(20), Ok(Some((10, 20))));
    assert_eq!(s.join(30), Ok(None));
    assert_eq!(s.join(40), Ok(Some((30, 40))));
    assert!(s.is_paired(10) && s.is_paired(20) && s.is_paired(30) && s.is_paired(40));
    assert_eq!(s.get_partner(10).unwrap().partner_id, 20);
    assert_eq!(s.get_partner(40).unwrap().partner_id, 30);
}

#[test]
fn joins_of_distinct_users_pair_all_but_one() {
    let mut s = SessionStore::new();
    let n: u64 = 7;
    let mut pairs = 0;
    for id in 1..=n {
        if let Ok(Some(_)) = s.join(id) {
            pairs += 1;
        }
    }
    assert_eq!(pairs, 3);
    assert!(s.is_queued(7));
    for id in 1..n {
        assert!(s.is_paired(id));
        assert!(!s.is_queued(id));
    }
}

#[test]
fn repeated_join_is_refused() {
    let mut s = SessionStore::new();
    assert_eq!(s.join(1), Ok(None));
    assert_eq!(s.join(1), Err(SessionError::AlreadyQueued));
    assert!(s.is_queued(1));
    assert_eq!(s.join(2), Ok(Some((1, 2))));
    assert_eq!(s.join(1), Err(SessionError::AlreadyPaired));
    assert_eq!(s.join(2), Err(SessionError::AlreadyPaired));
    assert!(!s.is_queued(1) && !s.is_queued(2));
}

#[test]
fn partners_point_at_each_other_and_share_a_key() {
    let mut s = SessionStore::new();
    let k = key_of(3);
    assert_eq!(s.join_with_key(5, k), Ok(None));
    assert_eq!(s.join_with_key(6, k), Ok(Some((5, 6))));
    let a = s.get_partner(5).unwrap();
    let b = s.get_partner(a.partner_id).unwrap();
    assert_eq!(b.partner_id, 5);
    assert_eq!(a.key, k);
    assert_eq!(b.key, k);
}

#[test]
fn leave_ends_the_session_for_both() {
    let mut s = SessionStore::new();
    s.join(1).unwrap();
    s.join(2).unwrap();
    assert_eq!(s.leave(1), Ok(LeaveOutcome::SessionEnded(2)));
    for id in [1, 2] {
        assert!(!s.is_paired(id));
        assert!(!s.is_queued(id));
    }
    assert_eq!(s.leave(2), Err(SessionError::NotInSession));
}

#[test]
fn leave_takes_a_waiting_user_out_of_the_queue() {
    let mut s = SessionStore::new();
    s.join(8).unwrap();
    assert_eq!(s.leave(8), Ok(LeaveOutcome::LeftQueue));
    assert!(!s.is_queued(8));
    assert_eq!(s.leave(8), Err(SessionError::NotInSession));
    assert_eq!(s.leave(9), Err(SessionError::NotInSession));
}

#[test]
fn store_primitives() {
    let mut s = SessionStore::new();
    assert_eq!(s.try_form_pair(), None);
    s.enqueue(1);
    assert_eq!(s.try_form_pair(), None);
    s.enqueue(2);
    s.enqueue(3);
    assert_eq!(s.try_form_pair(), Some((1, 2)));
    assert!(s.is_queued(3));
    assert_eq!(s.insert_pair(1, 2, key_of(1)), Ok(()));
    assert_eq!(s.insert_pair(2, 4, key_of(2)), Err(SessionError::AlreadyPaired));
    assert_eq!(s.get_partner(2).unwrap().partner_id, 1);
    assert!(s.remove_from_queue(3));
    assert!(!s.remove_from_queue(3));
    assert_eq!(s.remove_pair(2).unwrap().partner_id, 1);
    assert!(s.remove_pair(1).is_none());
    assert!(s.get_partner(1).is_none());
}

#[test]
fn encode_then_decode_gives_the_text_back() {
    let k = key_of(9);
    for text in ["", "hi", "exactly sixteen!", "Привет, собеседник 🔎"] {
        let ct = encode(text, &k);
        assert_eq!(ct.len(), 16 * (text.len() / 16 + 1));
        if !text.is_empty() {
            assert_ne!(&ct[..text.len()], text.as_bytes());
        }
        assert_eq!(decode(&ct, &k), Ok(text.to_string()));
    }
}

#[test]
fn session_iv_is_the_key_prefix() {
    let k = key_of(4);
    assert_eq!(session_iv(&k)[..], k[..16]);
}

#[test]
fn truncated_or_altered_ciphertext_is_a_decode_error() {
    let k = key_of(2);
    let ct = encode("hello there", &k);
    assert_eq!(decode(&ct[..ct.len() - 1], &k), Err(CipherError::DecodeError));
    assert_eq!(decode(&[], &k), Err(CipherError::DecodeError));
    let mut flipped = ct.clone();
    let last = flipped.len() - 1;
    flipped[last] ^= 0x01;
    assert_eq!(decode(&flipped, &k), Err(CipherError::DecodeError));
    assert_eq!(decode(&ct, &key_of(5)), Err(CipherError::DecodeError));
}

#[test]
fn invalid_utf8_yields_the_notice() {
    assert_eq!(
        text_from_plaintext(Some(vec![0xff, 0xfe, 0x41])),
        Err(CipherError::InvalidUtf8)
    );
    assert_eq!(text_from_plaintext(None), Err(CipherError::DecodeError));
    assert_eq!(text_from_plaintext(Some(b"ok".to_vec())), Ok("ok".to_string()));
    assert_eq!(
        body_or_notice(Err(CipherError::InvalidUtf8)),
        "Ошибка: Некорректное UTF-8 сообщение"
    );
    assert_eq!(
        body_or_notice(Err(CipherError::DecodeError)),
        "Ошибка расшифровки на стороне сервера."
    );
    assert_eq!(notice(CipherError::InvalidUtf8), "Ошибка: Некорректное UTF-8 сообщение");
    assert_eq!(body_or_notice(Ok("text".to_string())), "text");
}

#[test]
fn round_trip_returns_the_text() {
    assert_eq!(round_trip("hi", &key_of(1)), "hi");
    let info = PartnerInfo { partner_id: 77, key: key_of(6) };
    let m = relay_to_partner(&info, "добрый день");
    assert_eq!(m.to, 77);
    assert_eq!(m.body, "добрый день");
}

#[test]
fn two_users_meet_talk_and_part() {
    let u1: u64 = 1001;
    let u2: u64 = 1002;
    let mut s = SessionStore::new();
    assert_eq!(s.join(u1), Ok(None));
    assert!(s.is_queued(u1));
    assert!(!s.is_paired(u1));
    assert_eq!(s.join(u2), Ok(Some((u1, u2))));
    assert!(s.is_paired(u1) && s.is_paired(u2));
    let m = relay(&s, u1, "hi").unwrap();
    assert_eq!(m.to, u2);
    assert_eq!(m.body, "hi");
    assert_eq!(s.leave(u1), Ok(LeaveOutcome::SessionEnded(u2)));
    for id in [u1, u2] {
        assert!(!s.is_paired(id) && !s.is_queued(id));
    }
    assert!(relay(&s, u1, "anyone?").is_none());
}

#[test]
fn random_pairs_share_their_own_key() {
    let mut s = SessionStore::new();
    for id in 1..=4 {
        s.join(id).unwrap();
    }
    let a = s.get_partner(1).unwrap();
    let b = s.get_partner(2).unwrap();
    let c = s.get_partner(3).unwrap();
    assert_eq!(a.key, b.key);
    assert_eq!(c.key, s.get_partner(4).unwrap().key);
    assert_ne!(a.key, c.key);
}
