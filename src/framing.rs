use vstd::prelude::*;
use vstd::slice::slice_subrange;
use vstd::slice::slice_to_vec;
use crate::error::StoreError;

verus! {

/// The 8 bytes written after every envelope: `EMHKPSWD`.
pub open spec fn delimiter() -> Seq<u8> {
    seq![69u8, 77u8, 72u8, 75u8, 80u8, 83u8, 87u8, 68u8]
}

/// The delimiter stands at byte `i` of `f`.
pub open spec fn delim_at(f: Seq<u8>, i: int) -> bool {
    0 <= i && i + 8 <= f.len() && f.subrange(i, i + 8) == delimiter()
}

/// The first delimiter found scanning `f` in 8-byte strides from `from`.
pub open spec fn next_delim(f: Seq<u8>, from: nat) -> Option<nat>
    decreases f.len() - from,
{
    if from + 8 > f.len() {
        None
    } else if delim_at(f, from as int) {
        Some(from)
    } else {
        next_delim(f, from + 8)
    }
}

/// Envelope `n` counted from an envelope that starts at `start`: the bytes up
/// to the next delimiter, `n` delimiters further on.
pub open spec fn frame_from(f: Seq<u8>, start: nat, n: nat) -> Option<Seq<u8>>
    decreases n,
{
    match next_delim(f, start) {
        None => None,
        Some(d) => if n == 0 {
            Some(f.subrange(start as int, d as int))
        } else {
            frame_from(f, d + 8, (n - 1) as nat)
        },
    }
}

/// Envelope `n` of a file (0 is the header), without its delimiter.
pub open spec fn frame(f: Seq<u8>, n: nat) -> Option<Seq<u8>> {
    frame_from(f, 0, n)
}

/// The file made of these envelopes, each followed by the delimiter.
pub open spec fn join_frames(es: Seq<Seq<u8>>) -> Seq<u8>
    decreases es.len(),
{
    if es.len() == 0 {
        Seq::empty()
    } else {
        es[0] + delimiter() + join_frames(es.drop_first())
    }
}

/// An envelope that reads back as itself once framed: its length is a
/// multiple of 8 and no delimiter stands in it at an offset that is one.
pub open spec fn frame_clean(e: Seq<u8>) -> bool {
    &&& e.len() % 8 == 0
    &&& forall|i: int| 0 <= i && i % 8 == 0 && i + 8 <= e.len() ==> !#[trigger] delim_at(e, i)
}

fn delim_at_exec(f: &[u8], i: usize) -> (r: bool)
    requires
        i + 8 <= f@.len(),
    ensures
        r == delim_at(f@, i as int),
{
    let r = f[i] == 69 && f[i + 1] == 77 && f[i + 2] == 72 && f[i + 3] == 75 && f[i + 4] == 80
        && f[i + 5] == 83 && f[i + 6] == 87 && f[i + 7] == 68;
    if r {
        assert(f@.subrange(i as int, i + 8) =~= delimiter());
    } else {
        assert(f@.subrange(i as int, i + 8) != delimiter()) by {
            if f@.subrange(i as int, i + 8) == delimiter() {
                assert(f@.subrange(i as int, i + 8)[0] == 69);
                assert(f@.subrange(i as int, i + 8)[1] == 77);
                assert(f@.subrange(i as int, i + 8)[2] == 72);
                assert(f@.subrange(i as int, i + 8)[3] == 75);
                assert(f@.subrange(i as int, i + 8)[4] == 80);
                assert(f@.subrange(i as int, i + 8)[5] == 83);
                assert(f@.subrange(i as int, i + 8)[6] == 87);
                assert(f@.subrange(i as int, i + 8)[7] == 68);
            }
        }
    }
    r
}

/// Envelope `message_id` of `file` (0 is the header), found by scanning for
/// delimiters in 8-byte strides from the start.
pub fn read_raw_message(file: &[u8], message_id: usize) -> (r: Result<Vec<u8>, StoreError>)
    ensures
        match frame(file@, message_id as nat) {
            Some(e) => r matches Ok(v) && v@ == e,
            None => r == Err::<Vec<u8>, StoreError>(StoreError::FramingError),
        },
{
    let len = file.len();
    let mut count: usize = 0;
    let mut start: usize = 0;
    let mut cur: usize = 0;
    while cur < len && 8 <= len - cur
        invariant
            len == file@.len(),
            start <= cur <= len,
            count <= message_id,
            next_delim(file@, start as nat) == next_delim(file@, cur as nat),
            frame_from(file@, start as nat, (message_id - count) as nat) == frame(
                file@,
                message_id as nat,
            ),
        decreases len - cur,
    {
        if delim_at_exec(file, cur) {
            if count == message_id {
                let v = slice_to_vec(slice_subrange(file, start, cur));
                return Ok(v);
            }
            count += 1;
            start = cur + 8;
            cur = start;
        } else {
            cur += 8;
        }
    }
    Err(StoreError::FramingError)
}

/// Appends envelope `e` and the delimiter to `out`.
pub fn push_frame(out: &mut Vec<u8>, e: &[u8])
    ensures
        final(out)@ == old(out)@ + e@ + delimiter(),
{
    let mut tail = slice_to_vec(e);
    out.append(&mut tail);
    let mut d: Vec<u8> = vec![69u8, 77u8, 72u8, 75u8, 80u8, 83u8, 87u8, 68u8];
    assert(d@ =~= delimiter());
    out.append(&mut d);
}

pub proof fn lemma_join_push(es: Seq<Seq<u8>>, e: Seq<u8>)
    ensures
        join_frames(es.push(e)) == join_frames(es) + e + delimiter(),
    decreases es.len(),
{
    if es.len() == 0 {
        assert(es.push(e).drop_first() =~= Seq::<Seq<u8>>::empty());
        assert(es.push(e)[0] == e);
        assert(join_frames(Seq::<Seq<u8>>::empty()) == Seq::<u8>::empty());
        assert(join_frames(es) == Seq::<u8>::empty());
        assert(join_frames(es.push(e)) == e + delimiter() + join_frames(Seq::<Seq<u8>>::empty()));
        assert(join_frames(es.push(e)) =~= join_frames(es) + e + delimiter());
    } else {
        lemma_join_push(es.drop_first(), e);
        assert(es.push(e).drop_first() =~= es.drop_first().push(e));
        assert(es.push(e)[0] == es[0]);
        assert(join_frames(es.push(e)) == es[0] + delimiter() + join_frames(es.drop_first().push(e)));
        assert(join_frames(es) == es[0] + delimiter() + join_frames(es.drop_first()));
        assert(join_frames(es.push(e)) =~= join_frames(es) + e + delimiter());
    }
}

proof fn lemma_next_delim_clean(e: Seq<u8>, rest: Seq<u8>, i: nat)
    requires
        frame_clean(e),
        i % 8 == 0,
        i <= e.len(),
    ensures
        next_delim(e + delimiter() + rest, i) == Some(e.len()),
    decreases e.len() - i,
{
    let f = e + delimiter() + rest;
    if i == e.len() {
        assert(f.subrange(i as int, (i + 8) as int) =~= delimiter());
    } else {
        assert(i + 8 <= e.len());
        assert(f.subrange(i as int, (i + 8) as int) =~= e.subrange(i as int, (i + 8) as int));
        assert(!delim_at(e, i as int));
        lemma_next_delim_clean(e, rest, i + 8);
    }
}

proof fn lemma_next_delim_shift(a: Seq<u8>, b: Seq<u8>, x: nat)
    ensures
        next_delim(a + b, a.len() + x) == match next_delim(b, x) {
            Some(d) => Some(d + a.len()),
            None => None::<nat>,
        },
    decreases b.len() - x,
{
    let f = a + b;
    if x + 8 <= b.len() {
        assert(f.subrange((a.len() + x) as int, (a.len() + x + 8) as int) =~= b.subrange(x as int, (x + 8) as int));
        lemma_next_delim_shift(a, b, x + 8);
    }
}

proof fn lemma_frame_shift(a: Seq<u8>, b: Seq<u8>, x: nat, n: nat)
    ensures
        frame_from(a + b, a.len() + x, n) == frame_from(b, x, n),
    decreases n,
{
    lemma_next_delim_shift(a, b, x);
    match next_delim(b, x) {
        None => {},
        Some(d) => {
            lemma_next_delim_first(b, x);
            if n == 0 {
                assert((a + b).subrange((a.len() + x) as int, (d + a.len()) as int) =~= b.subrange(x as int, d as int));
            } else {
                assert(a.len() + d + 8 == a.len() + (d + 8));
                lemma_frame_shift(a, b, d + 8, (n - 1) as nat);
            }
        },
    }
}

/// Each envelope of a file joined from clean envelopes reads back as itself.
pub proof fn lemma_join_frame(es: Seq<Seq<u8>>, j: nat)
    requires
        j < es.len(),
        forall|k: int| 0 <= k < es.len() ==> frame_clean(#[trigger] es[k]),
    ensures
        frame(join_frames(es), j) == Some(es[j as int]),
    decreases j,
{
    let f = join_frames(es);
    let rest = join_frames(es.drop_first());
    assert(f == es[0] + delimiter() + rest);
    lemma_next_delim_clean(es[0], rest, 0);
    if j == 0 {
        assert(f.subrange(0, es[0].len() as int) =~= es[0]);
    } else {
        let a = es[0] + delimiter();
        assert(f == a + rest);
        lemma_frame_shift(a, rest, 0, (j - 1) as nat);
        assert(a.len() + 0 == es[0].len() + 8);
        lemma_join_frame(es.drop_first(), (j - 1) as nat);
    }
}

proof fn lemma_next_delim_first(f: Seq<u8>, s: nat)
    requires
        next_delim(f, s) is Some,
    ensures
        ({
            let d = next_delim(f, s)->Some_0;
            &&& s <= d
            &&& (d - s) % 8 == 0
            &&& delim_at(f, d as int)
            &&& forall|i: int| s <= i < d && (i - s) % 8 == 0 ==> !#[trigger] delim_at(f, i)
        }),
    decreases f.len() - s,
{
    if !delim_at(f, s as int) {
        lemma_next_delim_first(f, s + 8);
    }
}

/// A file that holds envelope `n` from `start` has room for its `n + 1` delimiters.
pub proof fn lemma_frame_room(f: Seq<u8>, start: nat, n: nat)
    requires
        frame_from(f, start, n) is Some,
    ensures
        start + 8 * n + 8 <= f.len(),
    decreases n,
{
    lemma_next_delim_first(f, start);
    let d = next_delim(f, start)->Some_0;
    if n > 0 {
        lemma_frame_room(f, d + 8, (n - 1) as nat);
    }
}

/// Every envelope read out of a file is clean: written again with its
/// delimiter, it reads back as itself.
pub proof fn lemma_frame_clean(f: Seq<u8>, start: nat, n: nat)
    requires
        frame_from(f, start, n) is Some,
    ensures
        frame_clean(frame_from(f, start, n)->Some_0),
    decreases n,
{
    lemma_next_delim_first(f, start);
    let d = next_delim(f, start)->Some_0;
    if n == 0 {
        let e = f.subrange(start as int, d as int);
        assert forall|i: int| 0 <= i && i % 8 == 0 && i + 8 <= e.len() implies !#[trigger] delim_at(e, i) by {
            assert(e.subrange(i, i + 8) =~= f.subrange(start + i, start + i + 8));
            assert(!delim_at(f, start + i));
        }
    } else {
        lemma_frame_clean(f, d + 8, (n - 1) as nat);
    }
}

} // verus!
