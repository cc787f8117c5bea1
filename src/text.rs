use vstd::prelude::*;
use vstd::slice::slice_subrange;
use vstd::slice::slice_to_vec;

verus! {

/// The byte that separates the fields of a header or a record (`|`).
pub const PIPE: u8 = 124;

/// Byte strings of a sequence of vectors.
pub open spec fn texts(v: Seq<Vec<u8>>) -> Seq<Seq<u8>> {
    v.map_values(|x: Vec<u8>| x@)
}

/// The fields of `s` from the one that starts at `start`, with the scan at `i`.
pub open spec fn split_from(s: Seq<u8>, start: nat, i: nat) -> Seq<Seq<u8>>
    decreases s.len() - i,
{
    if i >= s.len() {
        seq![s.subrange(start as int, s.len() as int)]
    } else if s[i as int] == PIPE {
        seq![s.subrange(start as int, i as int)] + split_from(s, i + 1, i + 1)
    } else {
        split_from(s, start, i + 1)
    }
}

/// The `|`-separated fields of `s`; there is always at least one.
pub open spec fn split_pipe(s: Seq<u8>) -> Seq<Seq<u8>> {
    split_from(s, 0, 0)
}

/// The fields joined with `|` between them.
pub open spec fn join_pipe(parts: Seq<Seq<u8>>) -> Seq<u8>
    decreases parts.len(),
{
    if parts.len() == 0 {
        Seq::empty()
    } else if parts.len() == 1 {
        parts[0]
    } else {
        join_pipe(parts.drop_last()) + seq![PIPE] + parts.last()
    }
}

/// `s` holds no `|`.
pub open spec fn pipe_free(s: Seq<u8>) -> bool {
    forall|i: int| 0 <= i < s.len() ==> #[trigger] s[i] != PIPE
}

/// Whether the bytes are valid UTF-8.
pub uninterp spec fn utf8_valid(b: Seq<u8>) -> bool;

/// Relies on `std::str::from_utf8`: it accepts exactly the valid UTF-8
/// byte strings, and ASCII is valid UTF-8.
#[verifier::external_body]
pub(crate) fn is_text(b: &[u8]) -> (r: bool)
    ensures
        r == utf8_valid(b@),
        (forall|i: int| 0 <= i < b@.len() ==> #[trigger] b@[i] < 128) ==> r,
{
    std::str::from_utf8(b).is_ok()
}

/// Splits `s` at every `|`.
pub fn split_fields(s: &[u8]) -> (r: Vec<Vec<u8>>)
    ensures
        texts(r@) == split_pipe(s@),
{
    let mut parts: Vec<Vec<u8>> = Vec::new();
    let mut start: usize = 0;
    let mut i: usize = 0;
    while i < s.len()
        invariant
            start <= i <= s@.len(),
            texts(parts@) + split_from(s@, start as nat, i as nat) == split_pipe(s@),
        decreases s@.len() - i,
    {
        if s[i] == PIPE {
            let part = slice_to_vec(slice_subrange(s, start, i));
            proof {
                let old_parts = parts@;
                assert(texts(old_parts.push(part)) =~= texts(old_parts).push(part@));
                assert(texts(old_parts).push(part@) + split_from(s@, (i + 1) as nat, (i + 1) as nat)
                    =~= texts(old_parts) + split_from(s@, start as nat, i as nat));
            }
            parts.push(part);
            start = i + 1;
        }
        i += 1;
    }
    let last = slice_to_vec(slice_subrange(s, start, s.len()));
    proof {
        assert(texts(parts@.push(last)) =~= texts(parts@) + split_from(s@, start as nat, i as nat));
    }
    parts.push(last);
    parts
}

/// Joins the fields with `|` between them.
pub fn join_fields(parts: &Vec<Vec<u8>>) -> (r: Vec<u8>)
    ensures
        r@ == join_pipe(texts(parts@)),
{
    let mut out: Vec<u8> = Vec::new();
    if parts.len() == 0 {
        return out;
    }
    out = slice_to_vec(parts[0].as_slice());
    let mut i: usize = 1;
    assert(texts(parts@).subrange(0, 1).len() == 1);
    while i < parts.len()
        invariant
            1 <= i <= parts@.len(),
            out@ == join_pipe(texts(parts@).subrange(0, i as int)),
        decreases parts@.len() - i,
    {
        out.push(PIPE);
        let mut next = slice_to_vec(parts[i].as_slice());
        out.append(&mut next);
        proof {
            let ps = texts(parts@).subrange(0, i + 1);
            assert(ps.drop_last() =~= texts(parts@).subrange(0, i as int));
            assert(ps.last() == parts@[i as int]@);
        }
        i += 1;
    }
    assert(texts(parts@).subrange(0, i as int) =~= texts(parts@));
    out
}

/// Decimal digits of `n` in ASCII, most significant first.
pub open spec fn decimal(n: nat) -> Seq<u8>
    decreases n,
{
    if n < 10 {
        seq![(48 + n) as u8]
    } else {
        decimal(n / 10) + seq![(48 + n % 10) as u8]
    }
}

/// Decimal digits of `n` in ASCII.
pub fn decimal_digits(n: usize) -> (r: Vec<u8>)
    ensures
        r@ == decimal(n as nat),
    decreases n,
{
    if n < 10 {
        let v: Vec<u8> = vec![(48 + n) as u8];
        assert(v@ =~= decimal(n as nat));
        v
    } else {
        let mut v = decimal_digits(n / 10);
        v.push((48 + n % 10) as u8);
        v
    }
}

/// A split has at least one field.
pub proof fn lemma_split_nonempty(s: Seq<u8>, start: nat, i: nat)
    ensures
        split_from(s, start, i).len() >= 1,
    decreases s.len() - i,
{
    if i < s.len() {
        if s[i as int] == PIPE {
            lemma_split_nonempty(s, i + 1, i + 1);
        } else {
            lemma_split_nonempty(s, start, i + 1);
        }
    }
}

proof fn lemma_split_tail_free(s: Seq<u8>, start: nat, i: nat)
    requires
        start <= i <= s.len(),
        forall|j: int| i <= j < s.len() ==> #[trigger] s[j] != PIPE,
    ensures
        split_from(s, start, i) == seq![s.subrange(start as int, s.len() as int)],
    decreases s.len() - i,
{
    if i < s.len() {
        lemma_split_tail_free(s, start, i + 1);
    }
}

/// Appending `|` and a field free of `|` appends that field to the split.
proof fn lemma_split_append(x: Seq<u8>, q: Seq<u8>, start: nat, i: nat)
    requires
        pipe_free(q),
        start <= i <= x.len(),
    ensures
        split_from(x + seq![PIPE] + q, start, i) == split_from(x, start, i) + seq![q],
    decreases x.len() - i,
{
    let s = x + seq![PIPE] + q;
    if i == x.len() {
        assert(s[i as int] == PIPE);
        lemma_split_tail_free(s, i + 1, i + 1);
        assert(s.subrange((i + 1) as int, s.len() as int) =~= q);
        assert(s.subrange(start as int, i as int) =~= x.subrange(start as int, x.len() as int));
        assert(split_from(s, start, i) =~= split_from(x, start, i) + seq![q]);
    } else {
        assert(s[i as int] == x[i as int]);
        if x[i as int] == PIPE {
            lemma_split_append(x, q, i + 1, i + 1);
            assert(s.subrange(start as int, i as int) =~= x.subrange(start as int, i as int));
            assert(split_from(s, start, i) =~= split_from(x, start, i) + seq![q]);
        } else {
            lemma_split_append(x, q, start, i + 1);
        }
    }
}

/// Splitting a line built by appending `|` and a field free of `|`.
pub proof fn lemma_split_push(x: Seq<u8>, q: Seq<u8>)
    requires
        pipe_free(q),
    ensures
        split_pipe(x + seq![PIPE] + q) == split_pipe(x).push(q),
{
    lemma_split_append(x, q, 0, 0);
    assert(split_pipe(x) + seq![q] =~= split_pipe(x).push(q));
}

/// Fields free of `|`, joined with `|`, split back into themselves.
pub proof fn lemma_split_join(parts: Seq<Seq<u8>>)
    requires
        parts.len() >= 1,
        forall|k: int| 0 <= k < parts.len() ==> pipe_free(#[trigger] parts[k]),
    ensures
        split_pipe(join_pipe(parts)) == parts,
    decreases parts.len(),
{
    if parts.len() == 1 {
        lemma_split_tail_free(parts[0], 0, 0);
        assert(parts[0].subrange(0, parts[0].len() as int) =~= parts[0]);
        assert(seq![parts[0]] =~= parts);
    } else {
        lemma_split_join(parts.drop_last());
        assert(pipe_free(parts[parts.len() - 1]));
        lemma_split_push(join_pipe(parts.drop_last()), parts.last());
        assert(parts.drop_last().push(parts.last()) =~= parts);
    }
}

proof fn lemma_split_from_free(s: Seq<u8>, start: nat, i: nat)
    requires
        start <= i <= s.len(),
        forall|j: int| start <= j < i ==> #[trigger] s[j] != PIPE,
    ensures
        forall|k: int| 0 <= k < split_from(s, start, i).len() ==> pipe_free(#[trigger] split_from(s, start, i)[k]),
    decreases s.len() - i,
{
    if i >= s.len() {
        let p = s.subrange(start as int, s.len() as int);
        assert forall|j: int| 0 <= j < p.len() implies #[trigger] p[j] != PIPE by {
            assert(p[j] == s[start + j]);
        }
        assert(split_from(s, start, i) == seq![p]);
        assert(seq![p][0] == p);
    } else if s[i as int] == PIPE {
        lemma_split_from_free(s, i + 1, i + 1);
        let p = s.subrange(start as int, i as int);
        assert forall|j: int| 0 <= j < p.len() implies #[trigger] p[j] != PIPE by {
            assert(p[j] == s[start + j]);
        }
        let rest = split_from(s, i + 1, i + 1);
        assert forall|k: int| 0 <= k < split_from(s, start, i).len() implies pipe_free(
            #[trigger] split_from(s, start, i)[k],
        ) by {
            assert(split_from(s, start, i) == seq![p] + rest);
            if k > 0 {
                assert(split_from(s, start, i)[k] == rest[k - 1]);
            } else {
                assert(split_from(s, start, i)[k] == p);
            }
        }
    } else {
        lemma_split_from_free(s, start, i + 1);
        assert(split_from(s, start, i) == split_from(s, start, i + 1));
    }
}

/// No field of a split holds `|`.
pub proof fn lemma_split_fields_free(s: Seq<u8>)
    ensures
        forall|k: int| 0 <= k < split_pipe(s).len() ==> pipe_free(#[trigger] split_pipe(s)[k]),
{
    lemma_split_from_free(s, 0, 0);
}

} // verus!
