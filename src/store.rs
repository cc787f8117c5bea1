use vstd::prelude::*;
use vstd::slice::slice_to_vec;
use crate::envelope::{open, opened, seal, sealed_with, too_long, KEY_LEN};
use crate::error::StoreError;
use crate::padding::padded_len;
use crate::framing::{delimiter, frame, join_frames, lemma_frame_room, lemma_join_push, push_frame, read_raw_message};
use crate::text::{decimal, decimal_digits, is_text, join_fields, join_pipe, lemma_split_nonempty, split_fields, split_pipe, texts, utf8_valid, PIPE};

verus! {

/// The plaintext of the header of a store that holds no account yet:
/// `HK PASSWORD MANAGER FILE`. It stays the header's first field.
pub open spec fn file_marker() -> Seq<u8> {
    seq![
        72u8, 75u8, 32u8, 80u8, 65u8, 83u8, 83u8, 87u8, 79u8, 82u8, 68u8, 32u8,
        77u8, 65u8, 78u8, 65u8, 71u8, 69u8, 82u8, 32u8, 70u8, 73u8, 76u8, 69u8,
    ]
}

/// The bytes of a result that holds bytes.
pub open spec fn bytes_of(r: Result<Vec<u8>, StoreError>) -> Result<Seq<u8>, StoreError> {
    match r {
        Ok(v) => Ok(v@),
        Err(e) => Err(e),
    }
}

/// The byte strings of a result that holds a list of them.
pub open spec fn fields_of(r: Result<Vec<Vec<u8>>, StoreError>) -> Result<Seq<Seq<u8>>, StoreError> {
    match r {
        Ok(v) => Ok(texts(v@)),
        Err(e) => Err(e),
    }
}

/// The text that envelope `n` of file `f` holds under `key`.
pub open spec fn envelope_text(f: Seq<u8>, key: Seq<u8>, n: nat) -> Result<Seq<u8>, StoreError> {
    if key.len() < 32 {
        Err(StoreError::KeyTooShort)
    } else {
        match frame(f, n) {
            None => Err(StoreError::FramingError),
            Some(e) => match opened(key, e) {
                Err(x) => Err(x),
                Ok(p) => if utf8_valid(p) {
                    Ok(p)
                } else {
                    Err(StoreError::EncodingError)
                },
            },
        }
    }
}

/// The account names that the header of `f` lists, in order.
pub open spec fn header_of(f: Seq<u8>, key: Seq<u8>) -> Result<Seq<Seq<u8>>, StoreError> {
    match envelope_text(f, key, 0) {
        Ok(p) => Ok(split_pipe(p).drop_first()),
        Err(x) => Err(x),
    }
}

/// The fields (account, username, password) of the record at 0-based
/// position `pos`, which is envelope `pos + 1`.
pub open spec fn record_of(f: Seq<u8>, key: Seq<u8>, pos: nat) -> Result<Seq<Seq<u8>>, StoreError> {
    match envelope_text(f, key, pos + 1) {
        Ok(p) => if split_pipe(p).len() == 3 {
            Ok(split_pipe(p))
        } else {
            Err(StoreError::EncodingError)
        },
        Err(x) => Err(x),
    }
}

/// The decrypted text of envelope `message_id` of `file` (0 is the header).
pub fn read_envelope_text(file: &[u8], key: &[u8], message_id: usize) -> (r: Result<Vec<u8>, StoreError>)
    ensures
        bytes_of(r) == envelope_text(file@, key@, message_id as nat),
{
    if key.len() < KEY_LEN {
        return Err(StoreError::KeyTooShort);
    }
    let raw = match read_raw_message(file, message_id) {
        Ok(e) => e,
        Err(x) => return Err(x),
    };
    let plain = match open(raw.as_slice(), key) {
        Ok(p) => p,
        Err(x) => return Err(x),
    };
    if is_text(plain.as_slice()) {
        Ok(plain)
    } else {
        Err(StoreError::EncodingError)
    }
}

/// The account names listed in the header of `file`, in order.
pub fn read_header(file: &[u8], key: &[u8]) -> (r: Result<Vec<Vec<u8>>, StoreError>)
    ensures
        fields_of(r) == header_of(file@, key@),
{
    let plain = match read_envelope_text(file, key, 0) {
        Ok(p) => p,
        Err(x) => return Err(x),
    };
    let mut parts = split_fields(plain.as_slice());
    proof {
        lemma_split_nonempty(plain@, 0, 0);
    }
    let ghost all = texts(parts@);
    parts.remove(0);
    assert(texts(parts@) =~= all.drop_first());
    Ok(parts)
}

/// The fields (account, username, password) of the record at 0-based
/// position `position` in the header.
pub fn read_message(file: &[u8], key: &[u8], position: usize) -> (r: Result<Vec<Vec<u8>>, StoreError>)
    requires
        position < usize::MAX,
    ensures
        fields_of(r) == record_of(file@, key@, position as nat),
{
    let plain = match read_envelope_text(file, key, position + 1) {
        Ok(p) => p,
        Err(x) => return Err(x),
    };
    let parts = split_fields(plain.as_slice());
    if parts.len() == 3 {
        Ok(parts)
    } else {
        Err(StoreError::EncodingError)
    }
}

/// `g` is a new store file under `key` whose one envelope `h` holds the
/// marker: 24 bytes of nonce, one padded block, a 16-byte tag, 112 bytes in
/// all with the delimiter.
pub open spec fn created_with(key: Seq<u8>, g: Seq<u8>, h: Seq<u8>) -> bool {
    &&& sealed_with(key, h, file_marker(), Seq::empty())
    &&& h.len() == 24 + 64 + 16
    &&& g == join_frames(seq![h])
    &&& g.len() == 112
}

/// The bytes of a new store file under `key`: one header envelope that holds
/// the marker, under a random nonce.
pub fn create_password_file(key: &[u8]) -> (r: Result<Vec<u8>, StoreError>)
    ensures
        key@.len() < 32 <==> r == Err::<Vec<u8>, StoreError>(StoreError::KeyTooShort),
        match r {
            Ok(g) => exists|h: Seq<u8>| created_with(key@, g@, h),
            Err(x) => key@.len() >= 32 ==> x == StoreError::RandomSourceError,
        },
{
    if key.len() < KEY_LEN {
        return Err(StoreError::KeyTooShort);
    }
    let marker: Vec<u8> = vec![
        72u8, 75u8, 32u8, 80u8, 65u8, 83u8, 83u8, 87u8, 79u8, 82u8, 68u8, 32u8,
        77u8, 65u8, 78u8, 65u8, 71u8, 69u8, 82u8, 32u8, 70u8, 73u8, 76u8, 69u8,
    ];
    assert(marker@ =~= file_marker());
    let empty: Vec<u8> = Vec::new();
    let h = match seal(marker.as_slice(), key, empty.as_slice()) {
        Ok(h) => h,
        Err(x) => return Err(x),
    };
    let mut out: Vec<u8> = Vec::new();
    push_frame(&mut out, h.as_slice());
    proof {
        lemma_join_push(Seq::empty(), h@);
        assert(Seq::<Seq<u8>>::empty().push(h@) =~= seq![h@]);
        assert(join_frames(Seq::<Seq<u8>>::empty()) == Seq::<u8>::empty());
        assert(empty@ =~= Seq::<u8>::empty());
        assert(padded_len(24) == 64);
        assert(join_frames(seq![h@]) == h@ + delimiter() + join_frames(Seq::<Seq<u8>>::empty()));
        assert(created_with(key@, out@, h@));
    }
    let r: Result<Vec<u8>, StoreError> = Ok(out);
    assert(r matches Ok(g) && created_with(key@, g@, h@));
    r
}

} // verus!

verus! {

/// The plaintext of an account record: `account|username|password`.
pub open spec fn record_text(account: Seq<u8>, username: Seq<u8>, password: Seq<u8>) -> Seq<u8> {
    account + seq![PIPE] + username + seq![PIPE] + password
}

/// Envelopes `lo .. lo + n` of `f` are all there.
pub open spec fn frames_exist(f: Seq<u8>, lo: nat, n: nat) -> bool {
    forall|j: nat| j < n ==> (#[trigger] frame(f, lo + j)) is Some
}

/// Envelopes `lo .. lo + n` of `f`, as raw bytes.
pub open spec fn frames_of(f: Seq<u8>, lo: nat, n: nat) -> Seq<Seq<u8>> {
    Seq::new(n, |j: int| frame(f, (lo + j) as nat)->Some_0)
}

/// The first position of `a` in `names` at `i` or after.
pub open spec fn position_from(names: Seq<Seq<u8>>, a: Seq<u8>, i: nat) -> Option<nat>
    decreases names.len() - i,
{
    if i >= names.len() {
        None
    } else if names[i as int] == a {
        Some(i)
    } else {
        position_from(names, a, i + 1)
    }
}

/// The first position of `a` in `names`.
pub open spec fn position_of(names: Seq<Seq<u8>>, a: Seq<u8>) -> Option<nat> {
    position_from(names, a, 0)
}

proof fn lemma_position_none(names: Seq<Seq<u8>>, a: Seq<u8>, i: nat)
    requires
        position_from(names, a, i) is None,
    ensures
        forall|j: int| i <= j < names.len() ==> names[j] != a,
    decreases names.len() - i,
{
    if i < names.len() {
        lemma_position_none(names, a, i + 1);
    }
}

pub proof fn lemma_position_some(names: Seq<Seq<u8>>, a: Seq<u8>, i: nat)
    requires
        position_from(names, a, i) is Some,
    ensures
        i <= position_from(names, a, i)->Some_0 < names.len(),
        names[position_from(names, a, i)->Some_0 as int] == a,
    decreases names.len() - i,
{
    if names[i as int] != a {
        lemma_position_some(names, a, i + 1);
    }
}

proof fn lemma_texts_push(v: Seq<Vec<u8>>, x: Vec<u8>)
    ensures
        texts(v.push(x)) == texts(v).push(x@),
{
    assert(texts(v.push(x)) =~= texts(v).push(x@));
}

fn bytes_eq(a: &[u8], b: &[u8]) -> (r: bool)
    ensures
        r == (a@ == b@),
{
    if a.len() != b.len() {
        return false;
    }
    let mut i: usize = 0;
    while i < a.len()
        invariant
            a@.len() == b@.len(),
            i <= a@.len(),
            a@.subrange(0, i as int) == b@.subrange(0, i as int),
        decreases a@.len() - i,
    {
        if a[i] != b[i] {
            assert(a@[i as int] != b@[i as int]);
            return false;
        }
        assert(a@.subrange(0, i + 1) =~= a@.subrange(0, i as int).push(a@[i as int]));
        assert(b@.subrange(0, i + 1) =~= b@.subrange(0, i as int).push(b@[i as int]));
        i += 1;
    }
    assert(a@ =~= a@.subrange(0, i as int));
    assert(b@ =~= b@.subrange(0, i as int));
    true
}

fn find_name(names: &Vec<Vec<u8>>, a: &[u8]) -> (r: Option<usize>)
    ensures
        match r {
            Some(i) => position_of(texts(names@), a@) == Some(i as nat),
            None => position_of(texts(names@), a@) is None,
        },
{
    let mut i: usize = 0;
    while i < names.len()
        invariant
            i <= names@.len(),
            position_of(texts(names@), a@) == position_from(texts(names@), a@, i as nat),
        decreases names@.len() - i,
    {
        if bytes_eq(names[i].as_slice(), a) {
            return Some(i);
        }
        i += 1;
    }
    None
}

fn read_frames(file: &[u8], lo: usize, n: usize) -> (r: Result<Vec<Vec<u8>>, StoreError>)
    requires
        lo <= 1,
    ensures
        match r {
            Ok(v) => {
                &&& frames_exist(file@, lo as nat, n as nat)
                &&& texts(v@) == frames_of(file@, lo as nat, n as nat)
                &&& v@.len() == n
            },
            Err(x) => x == StoreError::FramingError && !frames_exist(file@, lo as nat, n as nat),
        },
{
    let mut out: Vec<Vec<u8>> = Vec::new();
    let mut j: usize = 0;
    while j < n
        invariant
            lo <= 1,
            j <= n,
            frames_exist(file@, lo as nat, j as nat),
            texts(out@) == frames_of(file@, lo as nat, j as nat),
        decreases n - j,
    {
        match read_raw_message(file, lo + j) {
            Ok(e) => {
                proof {
                    lemma_texts_push(out@, e);
                    assert(e@ == frame(file@, (lo + j) as nat)->Some_0);
                    assert(texts(out@).push(e@) =~= frames_of(file@, lo as nat, (j + 1) as nat));
                    assert forall|k: nat| k < j + 1 implies (#[trigger] frame(file@, lo as nat + k)) is Some by {
                        if k < j {
                            assert(frame(file@, lo as nat + k) is Some);
                        }
                    }
                }
                out.push(e);
            },
            Err(x) => {
                assert(frame(file@, lo as nat + j as nat) is None);
                return Err(x);
            },
        }
        j += 1;
    }
    Ok(out)
}

fn join_all(frames: &Vec<Vec<u8>>) -> (r: Vec<u8>)
    ensures
        r@ == join_frames(texts(frames@)),
{
    let mut out: Vec<u8> = Vec::new();
    let mut i: usize = 0;
    assert(texts(frames@).subrange(0, 0) =~= Seq::<Seq<u8>>::empty());
    while i < frames.len()
        invariant
            i <= frames@.len(),
            out@ == join_frames(texts(frames@).subrange(0, i as int)),
        decreases frames@.len() - i,
    {
        push_frame(&mut out, frames[i].as_slice());
        proof {
            lemma_join_push(texts(frames@).subrange(0, i as int), frames@[i as int]@);
            assert(texts(frames@).subrange(0, i as int).push(frames@[i as int]@) =~= texts(frames@).subrange(
                0,
                i + 1,
            ));
        }
        i += 1;
    }
    assert(texts(frames@).subrange(0, i as int) =~= texts(frames@));
    out
}

fn record_bytes(account: &[u8], username: &[u8], password: &[u8]) -> (r: Vec<u8>)
    ensures
        r@ == record_text(account@, username@, password@),
{
    let mut out = slice_to_vec(account);
    out.push(PIPE);
    let mut u = slice_to_vec(username);
    out.append(&mut u);
    out.push(PIPE);
    let mut p = slice_to_vec(password);
    out.append(&mut p);
    out
}

/// `g` is `f` with `account` added: a new header `h` that lists it last,
/// the records of `f` as they were, then its record `e`, whose nonce begins
/// with its envelope number in decimal.
pub open spec fn added_with(
    f: Seq<u8>,
    key: Seq<u8>,
    account: Seq<u8>,
    username: Seq<u8>,
    password: Seq<u8>,
    g: Seq<u8>,
    h: Seq<u8>,
    e: Seq<u8>,
) -> bool {
    let t = envelope_text(f, key, 0)->Ok_0;
    let n = header_of(f, key)->Ok_0.len();
    &&& sealed_with(key, h, t + seq![PIPE] + account, Seq::empty())
    &&& sealed_with(key, e, record_text(account, username, password), decimal(n + 1))
    &&& g == join_frames(seq![h] + frames_of(f, 1, n) + seq![e])
}

/// `g` is `f` with `account` added, under some header and record envelopes.
pub open spec fn is_added(
    f: Seq<u8>,
    key: Seq<u8>,
    account: Seq<u8>,
    username: Seq<u8>,
    password: Seq<u8>,
    g: Seq<u8>,
) -> bool {
    exists|h: Seq<u8>, e: Seq<u8>| #[trigger] added_with(f, key, account, username, password, g, h, e)
}

/// What adding an account to `f` gives.
pub open spec fn add_result(
    f: Seq<u8>,
    key: Seq<u8>,
    account: Seq<u8>,
    username: Seq<u8>,
    password: Seq<u8>,
    r: Result<Seq<u8>, StoreError>,
) -> bool {
    match header_of(f, key) {
        Err(x) => r == Err::<Seq<u8>, StoreError>(x),
        Ok(names) => if names.contains(account) {
            r == Err::<Seq<u8>, StoreError>(StoreError::DuplicateAccount)
        } else if !frames_exist(f, 1, names.len()) {
            r == Err::<Seq<u8>, StoreError>(StoreError::FramingError)
        } else {
            let hdr = envelope_text(f, key, 0)->Ok_0 + seq![PIPE] + account;
            let rec = record_text(account, username, password);
            &&& match r {
                Ok(g) => is_added(f, key, account, username, password, g),
                Err(x) => x == StoreError::RandomSourceError || (x == StoreError::CryptoSealError && (too_long(hdr) || too_long(rec))),
            }
            &&& too_long(hdr) ==> r == Err::<Seq<u8>, StoreError>(StoreError::CryptoSealError)
            &&& too_long(rec) ==> r is Err
        },
    }
}

/// Adds an account to the store in `file`: the bytes of the new file, with
/// the header re-sealed, the other records copied as they are, and the new
/// record last. A name already in the header is refused.
pub fn add_account(file: &[u8], key: &[u8], account: &[u8], username: &[u8], password: &[u8]) -> (r: Result<Vec<u8>, StoreError>)
    ensures
        add_result(file@, key@, account@, username@, password@, bytes_of(r)),
        key@.len() < 32 ==> r == Err::<Vec<u8>, StoreError>(StoreError::KeyTooShort),
{
    let text = match read_envelope_text(file, key, 0) {
        Ok(t) => t,
        Err(x) => return Err(x),
    };
    let mut parts = split_fields(text.as_slice());
    proof {
        lemma_split_nonempty(text@, 0, 0);
    }
    let ghost all = texts(parts@);
    parts.remove(0);
    assert(texts(parts@) =~= all.drop_first());
    let ghost names = texts(parts@);
    match find_name(&parts, account) {
        Some(i) => {
            proof {
                lemma_position_some(names, account@, 0);
            }
            assert(names.contains(account@));
            return Err(StoreError::DuplicateAccount);
        },
        None => {
            proof {
                lemma_position_none(names, account@, 0);
            }
        },
    }
    let n = parts.len();
    let flen = file.len();
    let old_frames = match read_frames(file, 1, n) {
        Ok(v) => v,
        Err(x) => return Err(x),
    };
    proof {
        if n > 0 {
            assert(frame(file@, 1 + ((n - 1) as nat)) is Some);
            lemma_frame_room(file@, 0, n as nat);
        }
    }
    let mut hdr = slice_to_vec(text.as_slice());
    hdr.push(PIPE);
    let mut acc = slice_to_vec(account);
    hdr.append(&mut acc);
    let empty: Vec<u8> = Vec::new();
    assert(hdr@ =~= text@ + seq![PIPE] + account@);
    let h = match seal(hdr.as_slice(), key, empty.as_slice()) {
        Ok(h) => h,
        Err(x) => return Err(x),
    };
    let rec = record_bytes(account, username, password);
    let digits = decimal_digits(n + 1);
    let e = match seal(rec.as_slice(), key, digits.as_slice()) {
        Ok(e) => e,
        Err(x) => return Err(x),
    };
    let mut frames: Vec<Vec<u8>> = Vec::new();
    proof {
        lemma_texts_push(frames@, h);
        assert(texts(frames@) =~= Seq::<Seq<u8>>::empty());
    }
    frames.push(h);
    let mut i: usize = 0;
    while i < old_frames.len()
        invariant
            i <= old_frames@.len(),
            texts(frames@) == seq![h@] + texts(old_frames@).subrange(0, i as int),
        decreases old_frames@.len() - i,
    {
        let copy = slice_to_vec(old_frames[i].as_slice());
        proof {
            lemma_texts_push(frames@, copy);
            assert(copy@ == texts(old_frames@)[i as int]);
        }
        frames.push(copy);
        assert(texts(frames@) =~= seq![h@] + texts(old_frames@).subrange(0, i + 1));
        i += 1;
    }
    proof {
        lemma_texts_push(frames@, e);
        assert(texts(old_frames@).subrange(0, i as int) =~= frames_of(file@, 1, n as nat));
    }
    frames.push(e);
    assert(texts(frames@) =~= seq![h@] + frames_of(file@, 1, n as nat) + seq![e@]);
    let out = join_all(&frames);
    let ghost g = out@;
    assert(empty@ =~= Seq::<u8>::empty());
    assert(added_with(file@, key@, account@, username@, password@, g, h@, e@));
    let r: Result<Vec<u8>, StoreError> = Ok(out);
    assert(bytes_of(r) == Ok::<Seq<u8>, StoreError>(g));
    r
}

} // verus!

verus! {

/// `g` is `f` with the record of `account` replaced by `e`, which seals the
/// new username and password under a nonce that begins with its envelope
/// number; every other envelope, header included, is copied as it was.
pub open spec fn modified_with(
    f: Seq<u8>,
    key: Seq<u8>,
    account: Seq<u8>,
    username: Seq<u8>,
    password: Seq<u8>,
    g: Seq<u8>,
    e: Seq<u8>,
) -> bool {
    let names = header_of(f, key)->Ok_0;
    let pos = position_of(names, account)->Some_0;
    &&& sealed_with(key, e, record_text(account, username, password), decimal(pos + 1))
    &&& g == join_frames(frames_of(f, 0, names.len() + 1).update(pos + 1 as int, e))
}

/// `g` is `f` with the record of `account` replaced by some envelope.
pub open spec fn is_modified(
    f: Seq<u8>,
    key: Seq<u8>,
    account: Seq<u8>,
    username: Seq<u8>,
    password: Seq<u8>,
    g: Seq<u8>,
) -> bool {
    exists|e: Seq<u8>| #[trigger] modified_with(f, key, account, username, password, g, e)
}

/// What changing the username and password of an account in `f` gives.
pub open spec fn modify_result(
    f: Seq<u8>,
    key: Seq<u8>,
    account: Seq<u8>,
    username: Seq<u8>,
    password: Seq<u8>,
    r: Result<Seq<u8>, StoreError>,
) -> bool {
    match header_of(f, key) {
        Err(x) => r == Err::<Seq<u8>, StoreError>(x),
        Ok(names) => match position_of(names, account) {
            None => r == Err::<Seq<u8>, StoreError>(StoreError::AccountNotFound),
            Some(pos) => match record_of(f, key, pos) {
                Err(x) => r == Err::<Seq<u8>, StoreError>(x),
                Ok(fields) => if fields[0] != account {
                    r == Err::<Seq<u8>, StoreError>(StoreError::AccountNotFound)
                } else if !frames_exist(f, 0, names.len() + 1) {
                    r == Err::<Seq<u8>, StoreError>(StoreError::FramingError)
                } else {
                    let rec = record_text(account, username, password);
                    &&& match r {
                        Ok(g) => is_modified(f, key, account, username, password, g),
                        Err(x) => x == StoreError::RandomSourceError || (x == StoreError::CryptoSealError
                            && too_long(rec)),
                    }
                    &&& too_long(rec) ==> r == Err::<Seq<u8>, StoreError>(StoreError::CryptoSealError)
                },
            },
        },
    }
}

/// Changes the username and password of an account in the store in `file`:
/// the bytes of the new file, with that record re-sealed in its place and
/// every other envelope copied as it was.
pub fn modify_account(file: &[u8], key: &[u8], account: &[u8], username: &[u8], password: &[u8]) -> (r: Result<Vec<u8>, StoreError>)
    ensures
        modify_result(file@, key@, account@, username@, password@, bytes_of(r)),
        key@.len() < 32 ==> r == Err::<Vec<u8>, StoreError>(StoreError::KeyTooShort),
{
    let names = match read_header(file, key) {
        Ok(v) => v,
        Err(x) => return Err(x),
    };
    let pos = match find_name(&names, account) {
        Some(i) => i,
        None => return Err(StoreError::AccountNotFound),
    };
    let n = names.len();
    proof {
        lemma_position_some(texts(names@), account@, 0);
    }
    assert(pos < n);
    let fields = match read_message(file, key, pos) {
        Ok(v) => v,
        Err(x) => return Err(x),
    };
    assert(texts(fields@)[0] == fields@[0]@);
    if !bytes_eq(fields[0].as_slice(), account) {
        return Err(StoreError::AccountNotFound);
    }
    let first = match read_raw_message(file, 0) {
        Ok(v) => v,
        Err(x) => {
            assert(frame(file@, 0 + 0nat) is None);
            return Err(x);
        },
    };
    let old_frames = match read_frames(file, 1, n) {
        Ok(v) => v,
        Err(x) => {
            proof {
                let j0 = choose|j: nat| j < n && (#[trigger] frame(file@, 1 + j)) is None;
                assert(0 + (j0 + 1) as nat == 1 + j0);
                assert(frame(file@, 0 + (j0 + 1) as nat) is None);
            }
            return Err(x);
        },
    };
    proof {
        assert forall|j: nat| j < n + 1 implies (#[trigger] frame(file@, 0 + j)) is Some by {
            if j > 0 {
                assert(frame(file@, 1 + (j - 1) as nat) is Some);
                assert(1 + (j - 1) as nat == 0 + j);
            } else {
                assert(frame(file@, 0) is Some);
            }
        }
    }
    let rec = record_bytes(account, username, password);
    let digits = decimal_digits(pos + 1);
    let e = match seal(rec.as_slice(), key, digits.as_slice()) {
        Ok(e) => e,
        Err(x) => return Err(x),
    };
    let mut frames: Vec<Vec<u8>> = Vec::new();
    proof {
        lemma_texts_push(frames@, first);
        assert(texts(frames@) =~= Seq::<Seq<u8>>::empty());
    }
    frames.push(first);
    let ghost target = frames_of(file@, 0, (n + 1) as nat).update(pos + 1, e@);
    let mut i: usize = 0;
    while i < old_frames.len()
        invariant
            i <= old_frames@.len() == n,
            pos < n,
            texts(old_frames@) == frames_of(file@, 1, n as nat),
            frame(file@, 0) == Some(texts(frames@)[0]),
            texts(frames@).len() == i + 1,
            forall|k: int| 0 <= k <= i ==> #[trigger] texts(frames@)[k] == target[k],
            target == frames_of(file@, 0, (n + 1) as nat).update(pos + 1, e@),
        decreases old_frames@.len() - i,
    {
        let copy = if i == pos {
            slice_to_vec(e.as_slice())
        } else {
            slice_to_vec(old_frames[i].as_slice())
        };
        proof {
            lemma_texts_push(frames@, copy);
            if i != pos {
                assert(copy@ == frames_of(file@, 1, n as nat)[i as int]);
                assert(frames_of(file@, 1, n as nat)[i as int] == frame(file@, (1 + i) as nat)->Some_0);
            }
        }
        frames.push(copy);
        i += 1;
    }
    assert(texts(frames@) =~= target);
    let out = join_all(&frames);
    let ghost g = out@;
    assert(modified_with(file@, key@, account@, username@, password@, g, e@));
    let r: Result<Vec<u8>, StoreError> = Ok(out);
    assert(bytes_of(r) == Ok::<Seq<u8>, StoreError>(g));
    r
}

/// `g` is `f` without `account`: a new header `h` without its name, then the
/// other records as they were, in their order.
pub open spec fn deleted_with(f: Seq<u8>, key: Seq<u8>, account: Seq<u8>, g: Seq<u8>, h: Seq<u8>) -> bool {
    let t = envelope_text(f, key, 0)->Ok_0;
    let names = header_of(f, key)->Ok_0;
    let pos = position_of(names, account)->Some_0;
    &&& sealed_with(key, h, join_pipe(split_pipe(t).remove(pos + 1 as int)), Seq::empty())
    &&& g == join_frames(seq![h] + frames_of(f, 1, names.len()).remove(pos as int))
}

/// `g` is `f` without `account`, under some header envelope.
pub open spec fn is_deleted(f: Seq<u8>, key: Seq<u8>, account: Seq<u8>, g: Seq<u8>) -> bool {
    exists|h: Seq<u8>| #[trigger] deleted_with(f, key, account, g, h)
}

/// What removing an account from `f` gives.
pub open spec fn delete_result(f: Seq<u8>, key: Seq<u8>, account: Seq<u8>, r: Result<Seq<u8>, StoreError>) -> bool {
    match header_of(f, key) {
        Err(x) => r == Err::<Seq<u8>, StoreError>(x),
        Ok(names) => match position_of(names, account) {
            None => r == Err::<Seq<u8>, StoreError>(StoreError::AccountNotFound),
            Some(pos) => if !frames_exist(f, 1, names.len()) {
                r == Err::<Seq<u8>, StoreError>(StoreError::FramingError)
            } else {
                let hdr = join_pipe(split_pipe(envelope_text(f, key, 0)->Ok_0).remove(pos + 1 as int));
                &&& match r {
                    Ok(g) => is_deleted(f, key, account, g),
                    Err(x) => x == StoreError::RandomSourceError || (x == StoreError::CryptoSealError
                        && too_long(hdr)),
                }
                &&& too_long(hdr) ==> r == Err::<Seq<u8>, StoreError>(StoreError::CryptoSealError)
            },
        },
    }
}

/// Removes an account from the store in `file`: the bytes of the new file,
/// with a new header and every other record copied as it was, in order.
pub fn delete_account(file: &[u8], key: &[u8], account: &[u8]) -> (r: Result<Vec<u8>, StoreError>)
    ensures
        delete_result(file@, key@, account@, bytes_of(r)),
        key@.len() < 32 ==> r == Err::<Vec<u8>, StoreError>(StoreError::KeyTooShort),
{
    let names = match read_header(file, key) {
        Ok(v) => v,
        Err(x) => return Err(x),
    };
    let text = match read_envelope_text(file, key, 0) {
        Ok(t) => t,
        Err(x) => return Err(x),
    };
    let pos = match find_name(&names, account) {
        Some(i) => i,
        None => return Err(StoreError::AccountNotFound),
    };
    proof {
        lemma_position_some(texts(names@), account@, 0);
    }
    let n = names.len();
    let old_frames = match read_frames(file, 1, n) {
        Ok(v) => v,
        Err(x) => return Err(x),
    };
    let mut parts = split_fields(text.as_slice());
    let ghost all = texts(parts@);
    proof {
        lemma_split_nonempty(text@, 0, 0);
    }
    assert(all.drop_first() == texts(names@));
    assert(all.len() == n + 1);
    parts.remove(pos + 1);
    assert(texts(parts@) =~= all.remove(pos + 1 as int));
    let hdr = join_fields(&parts);
    let empty: Vec<u8> = Vec::new();
    assert(empty@ =~= Seq::<u8>::empty());
    let h = match seal(hdr.as_slice(), key, empty.as_slice()) {
        Ok(h) => h,
        Err(x) => return Err(x),
    };
    let mut frames: Vec<Vec<u8>> = Vec::new();
    proof {
        lemma_texts_push(frames@, h);
        assert(texts(frames@) =~= Seq::<Seq<u8>>::empty());
    }
    frames.push(h);
    let ghost target = seq![h@] + frames_of(file@, 1, n as nat).remove(pos as int);
    let mut i: usize = 0;
    while i < old_frames.len()
        invariant
            i <= old_frames@.len() == n,
            pos < n,
            texts(old_frames@) == frames_of(file@, 1, n as nat),
            target == seq![h@] + frames_of(file@, 1, n as nat).remove(pos as int),
            texts(frames@).len() == if i <= pos { i + 1 } else { i as int },
            forall|k: int| 0 <= k < texts(frames@).len() ==> #[trigger] texts(frames@)[k] == target[k],
        decreases old_frames@.len() - i,
    {
        if i != pos {
            let copy = slice_to_vec(old_frames[i].as_slice());
            proof {
                lemma_texts_push(frames@, copy);
            }
            frames.push(copy);
        }
        i += 1;
    }
    assert(texts(frames@) =~= target);
    let out = join_all(&frames);
    let ghost g = out@;
    assert(deleted_with(file@, key@, account@, g, h@));
    let r: Result<Vec<u8>, StoreError> = Ok(out);
    assert(bytes_of(r) == Ok::<Seq<u8>, StoreError>(g));
    r
}

} // verus!
