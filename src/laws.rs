use vstd::prelude::*;
use crate::envelope::{cipher_key, decrypted, lemma_open_sealed, sealed_with};
use crate::error::StoreError;
use crate::framing::{frame, frame_clean, join_frames, lemma_frame_clean, lemma_join_frame};
use crate::padding::unambiguous;
use crate::store::{
    added_with, add_result, deleted_with, delete_result, envelope_text, frames_exist, frames_of,
    header_of, lemma_position_some, modified_with, modify_result, position_of, record_of, record_text,
};
use crate::text::{join_pipe, lemma_split_fields_free, lemma_split_nonempty, lemma_split_join, lemma_split_push, pipe_free, split_pipe, utf8_valid, PIPE};

verus! {

/// Every envelope read out of `f` is clean.
proof fn lemma_frames_clean(f: Seq<u8>, lo: nat, n: nat)
    requires
        frames_exist(f, lo, n),
    ensures
        forall|k: int| 0 <= k < n ==> frame_clean(#[trigger] frames_of(f, lo, n)[k]),
{
    assert forall|k: int| 0 <= k < n implies frame_clean(#[trigger] frames_of(f, lo, n)[k]) by {
        assert(frame(f, lo + k as nat) is Some);
        lemma_frame_clean(f, 0, (lo + k) as nat);
    }
}

/// A record envelope sealed for `account|username|password` reads back as
/// those three fields, wherever none of them holds `|` and the text is
/// unambiguous under padding and valid UTF-8.
proof fn lemma_record_reads_back(
    g: Seq<u8>,
    key: Seq<u8>,
    slot: nat,
    e: Seq<u8>,
    account: Seq<u8>,
    username: Seq<u8>,
    password: Seq<u8>,
    prefix: Seq<u8>,
)
    requires
        key.len() >= 32,
        frame(g, slot + 1) == Some(e),
        sealed_with(key, e, record_text(account, username, password), prefix),
        unambiguous(record_text(account, username, password)),
        utf8_valid(record_text(account, username, password)),
        pipe_free(account),
        pipe_free(username),
        pipe_free(password),
    ensures
        record_of(g, key, slot) == Ok::<Seq<Seq<u8>>, StoreError>(seq![account, username, password]),
{
    let rec = record_text(account, username, password);
    lemma_open_sealed(key, e, rec, prefix);
    let parts = seq![account, username, password];
    assert(parts.drop_last() =~= seq![account, username]);
    assert(seq![account, username].drop_last() =~= seq![account]);
    assert(join_pipe(seq![account]) == account);
    assert(join_pipe(seq![account, username]) == account + seq![PIPE] + username);
    assert(join_pipe(parts) == join_pipe(seq![account, username]) + seq![PIPE] + password);
    assert(join_pipe(parts) =~= rec);
    assert forall|k: int| 0 <= k < parts.len() implies pipe_free(#[trigger] parts[k]) by {
        if k == 0 {
            assert(parts[k] == account);
        } else if k == 1 {
            assert(parts[k] == username);
        } else {
            assert(parts[k] == password);
        }
    }
    lemma_split_join(parts);
}

/// Changing one account leaves the header and every other record's
/// envelope byte for byte as they were, so they read the same; the
/// account's slot holds the new envelope, which reads back as the new
/// fields. The file must frame the new envelope as itself: no delimiter
/// stands in it at an offset that is a multiple of 8.
pub proof fn lemma_modify_keeps_others(
    f: Seq<u8>,
    key: Seq<u8>,
    account: Seq<u8>,
    username: Seq<u8>,
    password: Seq<u8>,
    g: Seq<u8>,
    e: Seq<u8>,
)
    requires
        modify_result(f, key, account, username, password, Ok(g)),
        modified_with(f, key, account, username, password, g, e),
        frame_clean(e),
    ensures
        ({
            let names = header_of(f, key)->Ok_0;
            let pos = position_of(names, account)->Some_0;
            &&& forall|j: nat| j <= names.len() && j != pos + 1 ==> #[trigger] frame(g, j) == frame(f, j)
            &&& frame(g, pos + 1) == Some(e)
            &&& header_of(g, key) == header_of(f, key)
            &&& forall|j: nat| j < names.len() && j != pos ==> #[trigger] record_of(g, key, j) == record_of(f, key, j)
            &&& (unambiguous(record_text(account, username, password)) && utf8_valid(record_text(account, username, password))
                && pipe_free(account) && pipe_free(username) && pipe_free(password)) ==> record_of(g, key, pos)
                == Ok::<Seq<Seq<u8>>, StoreError>(seq![account, username, password])
        }),
{
    let names = header_of(f, key)->Ok_0;
    let pos = position_of(names, account)->Some_0;
    let n = names.len();
    lemma_position_some(names, account, 0);
    let es = frames_of(f, 0, n + 1).update(pos + 1 as int, e);
    lemma_frames_clean(f, 0, n + 1);
    assert forall|k: int| 0 <= k < es.len() implies frame_clean(#[trigger] es[k]) by {
        if k != pos + 1 {
            assert(es[k] == frames_of(f, 0, n + 1)[k]);
        }
    }
    assert forall|j: nat| j <= n implies #[trigger] frame(g, j) == if j == pos + 1 { Some(e) } else { frame(f, j) } by {
        lemma_join_frame(es, j);
        if j != pos + 1 {
            assert(frame(f, 0 + j) is Some);
        }
    }
    assert(frame(g, 0) == frame(f, 0));
    assert(header_of(g, key) == header_of(f, key));
    assert forall|j: nat| j < n && j != pos implies #[trigger] record_of(g, key, j) == record_of(f, key, j) by {
        assert(frame(g, j + 1) == frame(f, j + 1));
    }
    if unambiguous(record_text(account, username, password)) && utf8_valid(record_text(account, username, password))
        && pipe_free(account) && pipe_free(username) && pipe_free(password) {
        lemma_record_reads_back(g, key, pos, e, account, username, password, crate::text::decimal(pos + 1));
    }
}

/// Removing an account shifts every later record down one position: the
/// records before it stay where they were, each later one reads at the
/// position before its old one, byte for byte the same envelope; and the
/// header lists the other names in their order, wherever the new header's
/// text is unambiguous under padding and valid UTF-8. The file must frame
/// the new header envelope as itself.
pub proof fn lemma_delete_shifts(f: Seq<u8>, key: Seq<u8>, account: Seq<u8>, g: Seq<u8>, h: Seq<u8>)
    requires
        delete_result(f, key, account, Ok(g)),
        deleted_with(f, key, account, g, h),
        frame_clean(h),
    ensures
        ({
            let names = header_of(f, key)->Ok_0;
            let pos = position_of(names, account)->Some_0;
            let hdr = join_pipe(split_pipe(envelope_text(f, key, 0)->Ok_0).remove(pos + 1 as int));
            &&& forall|j: nat| j < pos ==> #[trigger] frame(g, j + 1) == frame(f, j + 1)
            &&& forall|j: nat| pos <= j && j + 1 < names.len() ==> #[trigger] frame(g, j + 1) == frame(f, j + 2)
            &&& forall|j: nat| j < pos ==> #[trigger] record_of(g, key, j) == record_of(f, key, j)
            &&& forall|j: nat| pos <= j && j + 1 < names.len() ==> #[trigger] record_of(g, key, j) == record_of(f, key, j + 1)
            &&& (unambiguous(hdr) && utf8_valid(hdr)) ==> header_of(g, key) == Ok::<Seq<Seq<u8>>, StoreError>(names.remove(pos as int))
        }),
{
    let t = envelope_text(f, key, 0)->Ok_0;
    let names = header_of(f, key)->Ok_0;
    let pos = position_of(names, account)->Some_0;
    let n = names.len();
    lemma_position_some(names, account, 0);
    let rest = frames_of(f, 1, n).remove(pos as int);
    let es = seq![h] + rest;
    lemma_frames_clean(f, 1, n);
    assert forall|k: int| 0 <= k < es.len() implies frame_clean(#[trigger] es[k]) by {
        if k > 0 {
            if k - 1 < pos {
                assert(es[k] == frames_of(f, 1, n)[k - 1]);
            } else {
                assert(es[k] == frames_of(f, 1, n)[k]);
            }
        }
    }
    assert forall|j: nat| j < pos implies #[trigger] frame(g, j + 1) == frame(f, j + 1) by {
        lemma_join_frame(es, j + 1);
        assert(frame(f, 1 + j) is Some);
    }
    assert forall|j: nat| pos <= j && j + 1 < n implies #[trigger] frame(g, j + 1) == frame(f, j + 2) by {
        lemma_join_frame(es, j + 1);
        assert(frame(f, 1 + (j + 1)) is Some);
        assert(1 + (j + 1) == j + 2);
    }
    assert forall|j: nat| j < pos implies #[trigger] record_of(g, key, j) == record_of(f, key, j) by {
        assert(frame(g, j + 1) == frame(f, j + 1));
    }
    assert forall|j: nat| pos <= j && j + 1 < n implies #[trigger] record_of(g, key, j) == record_of(f, key, j + 1) by {
        assert(frame(g, j + 1) == frame(f, j + 2));
        assert((j + 1) + 1 == j + 2);
    }
    let hdr = join_pipe(split_pipe(t).remove(pos + 1 as int));
    if unambiguous(hdr) && utf8_valid(hdr) {
        lemma_join_frame(es, 0);
        lemma_open_sealed(key, h, hdr, Seq::empty());
        lemma_split_fields_free(t);
        lemma_split_nonempty(t, 0, 0);
        assert(split_pipe(t).len() == n + 1);
        let parts = split_pipe(t).remove(pos + 1 as int);
        assert forall|k: int| 0 <= k < parts.len() implies pipe_free(#[trigger] parts[k]) by {
            if k < pos + 1 {
                assert(parts[k] == split_pipe(t)[k]);
            } else {
                assert(parts[k] == split_pipe(t)[k + 1]);
            }
        }
        lemma_split_join(parts);
        assert(parts.drop_first() =~= names.remove(pos as int));
    }
}

/// Adding an account keeps every earlier record's envelope as it was, so
/// each reads the same at its position; the new record, last, reads back as
/// its fields, and the header lists the old names and then the new one,
/// wherever those texts are unambiguous under padding, valid UTF-8 and free
/// of `|` in their fields. The file must frame the two new envelopes as
/// themselves.
pub proof fn lemma_add_appends(
    f: Seq<u8>,
    key: Seq<u8>,
    account: Seq<u8>,
    username: Seq<u8>,
    password: Seq<u8>,
    g: Seq<u8>,
    h: Seq<u8>,
    e: Seq<u8>,
)
    requires
        add_result(f, key, account, username, password, Ok(g)),
        added_with(f, key, account, username, password, g, h, e),
        frame_clean(h),
        frame_clean(e),
    ensures
        ({
            let names = header_of(f, key)->Ok_0;
            let hdr = envelope_text(f, key, 0)->Ok_0 + seq![PIPE] + account;
            let rec = record_text(account, username, password);
            &&& forall|j: nat| j < names.len() ==> #[trigger] record_of(g, key, j) == record_of(f, key, j)
            &&& frame(g, names.len() + 1) == Some(e)
            &&& (unambiguous(rec) && utf8_valid(rec) && pipe_free(account) && pipe_free(username)
                && pipe_free(password)) ==> record_of(g, key, names.len())
                == Ok::<Seq<Seq<u8>>, StoreError>(seq![account, username, password])
            &&& (unambiguous(hdr) && utf8_valid(hdr) && pipe_free(account)) ==> header_of(g, key)
                == Ok::<Seq<Seq<u8>>, StoreError>(names.push(account))
        }),
{
    let t = envelope_text(f, key, 0)->Ok_0;
    let names = header_of(f, key)->Ok_0;
    let n = names.len();
    let es = seq![h] + frames_of(f, 1, n) + seq![e];
    lemma_frames_clean(f, 1, n);
    assert forall|k: int| 0 <= k < es.len() implies frame_clean(#[trigger] es[k]) by {
        if 0 < k <= n {
            assert(es[k] == frames_of(f, 1, n)[k - 1]);
        }
    }
    assert forall|j: nat| j < n implies #[trigger] record_of(g, key, j) == record_of(f, key, j) by {
        lemma_join_frame(es, j + 1);
        assert(frame(f, 1 + j) is Some);
    }
    lemma_join_frame(es, n + 1);
    assert(es[n + 1 as int] == e);
    let rec = record_text(account, username, password);
    if unambiguous(rec) && utf8_valid(rec) && pipe_free(account) && pipe_free(username) && pipe_free(password) {
        lemma_record_reads_back(g, key, n, e, account, username, password, crate::text::decimal(n + 1));
    }
    let hdr = t + seq![PIPE] + account;
    if unambiguous(hdr) && utf8_valid(hdr) && pipe_free(account) {
        lemma_join_frame(es, 0);
        lemma_open_sealed(key, h, hdr, Seq::empty());
        lemma_split_push(t, account);
        lemma_split_nonempty(t, 0, 0);
        assert(split_pipe(t).push(account).drop_first() =~= names.push(account));
    }
}

/// A file joined from clean envelopes reads back, at each position, the text
/// its envelope was sealed with, wherever that text is unambiguous under
/// padding and valid UTF-8; at position 0 the header lists the fields of that
/// text after the first.
pub proof fn lemma_read_sealed(es: Seq<Seq<u8>>, key: Seq<u8>, n: nat, p: Seq<u8>, prefix: Seq<u8>)
    requires
        key.len() >= 32,
        n < es.len(),
        forall|k: int| 0 <= k < es.len() ==> frame_clean(#[trigger] es[k]),
        sealed_with(key, es[n as int], p, prefix),
        unambiguous(p),
        utf8_valid(p),
    ensures
        envelope_text(join_frames(es), key, n) == Ok::<Seq<u8>, StoreError>(p),
        n == 0 ==> header_of(join_frames(es), key) == Ok::<Seq<Seq<u8>>, StoreError>(split_pipe(p).drop_first()),
{
    lemma_join_frame(es, n);
    lemma_open_sealed(key, es[n as int], p, prefix);
}

/// Only the first 32 bytes of a key count: two keys that share them read
/// every envelope, the header and every record of a file alike.
pub proof fn lemma_key_prefix(f: Seq<u8>, k1: Seq<u8>, k2: Seq<u8>)
    requires
        k1.len() >= 32,
        k2.len() >= 32,
        cipher_key(k1) == cipher_key(k2),
    ensures
        forall|n: nat| #[trigger] envelope_text(f, k1, n) == envelope_text(f, k2, n),
        header_of(f, k1) == header_of(f, k2),
        forall|pos: nat| #[trigger] record_of(f, k1, pos) == record_of(f, k2, pos),
{
    assert forall|n: nat| #[trigger] envelope_text(f, k1, n) == envelope_text(f, k2, n) by {
        if let Some(e) = frame(f, n) {
            assert(decrypted(k1, e) == decrypted(k2, e));
        }
    }
    assert(envelope_text(f, k1, 0) == envelope_text(f, k2, 0));
    assert forall|pos: nat| #[trigger] record_of(f, k1, pos) == record_of(f, k2, pos) by {
        assert(envelope_text(f, k1, pos + 1) == envelope_text(f, k2, pos + 1));
    }
}

} // verus!
