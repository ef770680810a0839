//! The compressed stream format and the encoder's choices, stated as
//! mathematical functions over byte sequences, with the laws that relate them.
use vstd::prelude::*;

verus! {

/// The dictionary slot that history position `t` occupies.
pub open spec fn slot(t: int) -> int {
    t % 256
}

/// The byte at position `j` of the decoded history `h`; a position before
/// the start of the history names a dictionary slot that was never written,
/// which the decoder holds as zero.
pub open spec fn byte_at(h: Seq<u8>, j: int) -> u8 {
    if 0 <= j < h.len() {
        h[j]
    } else {
        0
    }
}

/// The history after a back-reference copy of `len` bytes from `dist` bytes
/// back. Bytes are copied one at a time, so a copy may read bytes it has just
/// produced itself (which expands short patterns into long repetitions).
pub open spec fn copy_back(h: Seq<u8>, dist: int, len: nat) -> Seq<u8>
    decreases len,
{
    if len == 0 {
        h
    } else {
        let p = copy_back(h, dist, (len - 1) as nat);
        p.push(byte_at(p, p.len() - dist))
    }
}

/// Decodes the commands of `s` from position `i` onto the history `h`.
/// `None` when the stream ends in the middle of a command or before its end
/// byte; bytes after the end byte are ignored.
pub open spec fn decode_from(s: Seq<u8>, i: int, h: Seq<u8>) -> Option<Seq<u8>>
    decreases s.len() - i,
{
    if i < 0 || i >= s.len() {
        None
    } else if s[i] == 0 {
        Some(h)
    } else if s[i] < 0x80 {
        let end = i + 1 + s[i];
        if end > s.len() {
            None
        } else {
            decode_from(s, end, h + s.subrange(i + 1, end))
        }
    } else if i + 2 > s.len() {
        None
    } else {
        decode_from(s, i + 2, copy_back(h, s[i + 1] + 1, (s[i] - 0x80 + 3) as nat))
    }
}

/// What a compressed stream decodes to.
pub open spec fn decode(s: Seq<u8>) -> Option<Seq<u8>> {
    decode_from(s, 0, seq![])
}

/// `s[n..n+len]` is what a back-reference `dist` bytes back produces: the
/// distance fits the window, reaches no byte before the start of `s`, and
/// each byte equals the one `dist` positions before it (which may itself lie
/// inside the copied part).
pub open spec fn repeats_at(s: Seq<u8>, n: int, dist: int, len: int) -> bool {
    &&& 1 <= dist <= 256
    &&& dist <= n
    &&& 0 <= len
    &&& n + len <= s.len()
    &&& forall|k: int| 0 <= k < len ==> #[trigger] s[n - dist + k] == s[n + k]
}

/// The largest distance of at most `dist` at which `s[n..n+len]` repeats, or
/// zero when there is none.
pub open spec fn farthest_from(s: Seq<u8>, n: int, len: int, dist: int) -> int
    decreases dist,
{
    if dist <= 0 {
        0
    } else if repeats_at(s, n, dist, len) {
        dist
    } else {
        farthest_from(s, n, len, dist - 1)
    }
}

/// The distance the encoder refers back to for `s[n..n+len]`: the oldest
/// occurrence in the window, or zero when the window holds none.
pub open spec fn back_distance(s: Seq<u8>, n: int, len: int) -> int {
    farthest_from(s, n, len, 256)
}

/// A back-reference may start at `n`: at least three bytes remain, and they
/// occur in the window.
pub open spec fn starts_back_reference(s: Seq<u8>, n: int) -> bool {
    n + 3 <= s.len() && back_distance(s, n, 3) > 0
}

/// Length of the literal run that starts at `n`, of which `l` bytes are
/// taken: it ends at 127 bytes, at the end of the input, or where a
/// back-reference may start.
pub open spec fn run_length(s: Seq<u8>, n: int, l: int) -> int
    decreases 127 - l,
{
    if l >= 127 || n + l >= s.len() || starts_back_reference(s, n + l) {
        l
    } else {
        run_length(s, n, l + 1)
    }
}

/// Length of the back-reference that starts at `n`, of which `l` bytes are
/// matched: it grows while the longer prefix still occurs in the window, up
/// to 130 bytes and the end of the input.
pub open spec fn match_length(s: Seq<u8>, n: int, l: int) -> int
    decreases 130 - l,
{
    if l < 130 && n + l < s.len() && back_distance(s, n, l + 1) > 0 {
        match_length(s, n, l + 1)
    } else {
        l
    }
}

/// The stream the encoder writes for `s[n..]`, given the bytes before `n`
/// as history; `cache` tells whether the next command is a back-reference.
pub open spec fn encode_from(s: Seq<u8>, n: int, cache: bool) -> Seq<u8>
    decreases s.len() - n,
{
    if n < 0 || n >= s.len() {
        seq![0u8]
    } else if !cache {
        let l = run_length(s, n, 1);
        proof {
            lemma_run_length(s, n, 1);
        }
        let m = n + l;
        seq![l as u8] + s.subrange(n, m) + encode_from(
            s,
            m,
            l < 127 && m < s.len() && starts_back_reference(s, m),
        )
    } else {
        let l = match_length(s, n, 1);
        proof {
            lemma_match_length(s, n, 1);
        }
        let m = n + l;
        seq![(0x80 + l - 3) as u8, (back_distance(s, n, l) - 1) as u8] + encode_from(
            s,
            m,
            m < s.len() && starts_back_reference(s, m),
        )
    }
}

/// The compressed stream for `s`. The first command is always a literal run,
/// since the dictionary starts empty.
pub open spec fn encode(s: Seq<u8>) -> Seq<u8> {
    encode_from(s, 0, false)
}

/// The commands of `s` from `i` on are complete and are followed by exactly
/// one end byte, the last byte of `s`.
pub open spec fn framed_from(s: Seq<u8>, i: int) -> bool
    decreases s.len() - i,
{
    if i < 0 || i >= s.len() {
        false
    } else if s[i] == 0 {
        i == s.len() - 1
    } else if s[i] < 0x80 {
        i + 1 + s[i] <= s.len() && framed_from(s, i + 1 + s[i])
    } else {
        i + 2 <= s.len() && framed_from(s, i + 2)
    }
}

/// Decoding the commands of `s` from `i` onto a history of `n` bytes, every
/// back-reference reaches only bytes already written.
pub open spec fn refs_written_from(s: Seq<u8>, i: int, n: int) -> bool
    decreases s.len() - i,
{
    if i < 0 || i >= s.len() || s[i] == 0 {
        true
    } else if s[i] < 0x80 {
        i + 1 + s[i] <= s.len() && refs_written_from(s, i + 1 + s[i], n + s[i])
    } else {
        i + 2 <= s.len() && s[i + 1] + 1 <= n && refs_written_from(
            s,
            i + 2,
            n + s[i] - 0x80 + 3,
        )
    }
}

/// Moving a history position by whole windows keeps its slot, and positions
/// less than a window apart occupy different slots.
pub proof fn lemma_slot_step(t: int)
    ensures
        slot(t + 1) == (slot(t) + 1) % 256,
        forall|u: int| 0 < t - u < 256 ==> slot(u) != slot(t),
        slot(t + 256) == slot(t),
        slot(t - 256) == slot(t),
{
}

/// A slot plus an offset lands where the position plus the offset does.
pub proof fn lemma_slot_of(n: int, x: int)
    ensures
        slot(slot(n) + x) == slot(n + x),
{
    vstd::arithmetic::div_mod::lemma_add_mod_noop_right(x, n, 256);
}

/// A back-reference copy grows the history by its length.
pub proof fn lemma_copy_back_len(h: Seq<u8>, dist: int, len: nat)
    ensures
        copy_back(h, dist, len).len() == h.len() + len,
    decreases len,
{
    if len > 0 {
        lemma_copy_back_len(h, dist, (len - 1) as nat);
    }
}

pub proof fn lemma_run_length(s: Seq<u8>, n: int, l: int)
    requires
        1 <= l <= 127,
    ensures
        l <= run_length(s, n, l) <= 127,
        n + l <= s.len() ==> n + run_length(s, n, l) <= s.len(),
    decreases 127 - l,
{
    if !(l >= 127 || n + l >= s.len() || starts_back_reference(s, n + l)) {
        lemma_run_length(s, n, l + 1);
    }
}

pub proof fn lemma_match_length(s: Seq<u8>, n: int, l: int)
    requires
        1 <= l <= 130,
    ensures
        l <= match_length(s, n, l) <= 130,
        n + l <= s.len() ==> n + match_length(s, n, l) <= s.len(),
        back_distance(s, n, l) > 0 ==> back_distance(s, n, match_length(s, n, l)) > 0,
    decreases 130 - l,
{
    if l < 130 && n + l < s.len() && back_distance(s, n, l + 1) > 0 {
        lemma_match_length(s, n, l + 1);
    }
}

/// What `farthest_from` finds: a distance at which the bytes repeat, and no
/// larger one up to the bound.
pub proof fn lemma_farthest(s: Seq<u8>, n: int, len: int, dist: int)
    ensures
        0 <= farthest_from(s, n, len, dist),
        dist >= 0 ==> farthest_from(s, n, len, dist) <= dist,
        farthest_from(s, n, len, dist) > 0 ==> repeats_at(s, n, farthest_from(s, n, len, dist), len),
        forall|d: int|
            farthest_from(s, n, len, dist) < d <= dist ==> !#[trigger] repeats_at(s, n, d, len),
    decreases dist,
{
    if dist > 0 && !repeats_at(s, n, dist, len) {
        lemma_farthest(s, n, len, dist - 1);
    }
}

/// The farthest repeat is pinned down by a repeat with none farther.
pub proof fn lemma_farthest_is(s: Seq<u8>, n: int, len: int, dist: int)
    requires
        repeats_at(s, n, dist, len),
        forall|d: int| dist < d <= 256 ==> !#[trigger] repeats_at(s, n, d, len),
    ensures
        back_distance(s, n, len) == dist,
{
    lemma_farthest(s, n, len, 256);
}

/// With no repeat in the window, no back-reference is found.
pub proof fn lemma_farthest_none(s: Seq<u8>, n: int, len: int)
    requires
        forall|d: int| 1 <= d <= 256 ==> !#[trigger] repeats_at(s, n, d, len),
    ensures
        back_distance(s, n, len) == 0,
{
    lemma_farthest(s, n, len, 256);
}

/// A prefix of a repeated sequence repeats at the same distance.
pub proof fn lemma_prefix_found(s: Seq<u8>, n: int, len: int, shorter: int)
    requires
        0 <= shorter <= len,
        back_distance(s, n, len) > 0,
    ensures
        back_distance(s, n, shorter) > 0,
{
    lemma_farthest(s, n, len, 256);
    let d = back_distance(s, n, len);
    assert(repeats_at(s, n, d, shorter));
    lemma_farthest(s, n, shorter, 256);
}

/// A back-reference that starts at `n` covers at least three bytes.
pub proof fn lemma_match_at_least_three(s: Seq<u8>, n: int)
    requires
        0 <= n,
        starts_back_reference(s, n),
    ensures
        3 <= match_length(s, n, 1) <= 130,
        n + match_length(s, n, 1) <= s.len(),
        back_distance(s, n, match_length(s, n, 1)) > 0,
{
    lemma_prefix_found(s, n, 3, 2);
    lemma_match_length(s, n, 3);
    assert(match_length(s, n, 2) == match_length(s, n, 3));
    assert(match_length(s, n, 1) == match_length(s, n, 2));
}

/// A back-reference at a distance where the bytes repeat rebuilds them.
pub proof fn lemma_copy_back(s: Seq<u8>, n: int, dist: int, len: int)
    requires
        repeats_at(s, n, dist, len),
    ensures
        copy_back(s.take(n), dist, len as nat) == s.take(n + len),
    decreases len,
{
    if len > 0 {
        assert(repeats_at(s, n, dist, len - 1));
        lemma_copy_back(s, n, dist, len - 1);
        let p = copy_back(s.take(n), dist, (len - 1) as nat);
        assert(s[n - dist + (len - 1)] == s[n + (len - 1)]);
        assert(p.push(byte_at(p, p.len() - dist)) =~= s.take(n + len));
    } else {
        assert(s.take(n) =~= s.take(n + len));
    }
}

/// Decoding does not depend on what stands before the position it starts at.
pub proof fn lemma_decode_shift(p: Seq<u8>, q: Seq<u8>, i: int, h: Seq<u8>)
    requires
        0 <= i,
    ensures
        decode_from(p + q, p.len() + i, h) == decode_from(q, i, h),
    decreases q.len() - i,
{
    let s = p + q;
    let j = p.len() + i;
    if i < q.len() {
        assert(s[j] == q[i]);
        if q[i] != 0 {
            if q[i] < 0x80 {
                let end = i + 1 + q[i];
                if end <= q.len() {
                    assert(s.subrange(j + 1, p.len() + end) =~= q.subrange(i + 1, end));
                    lemma_decode_shift(p, q, end, h + q.subrange(i + 1, end));
                }
            } else if i + 2 <= q.len() {
                assert(s[j + 1] == q[i + 1]);
                lemma_decode_shift(
                    p,
                    q,
                    i + 2,
                    copy_back(h, q[i + 1] + 1, (q[i] - 0x80 + 3) as nat),
                );
            }
        }
    }
}

/// Framing does not depend on what stands before the position it starts at.
pub proof fn lemma_framed_shift(p: Seq<u8>, q: Seq<u8>, i: int)
    requires
        0 <= i,
    ensures
        framed_from(p + q, p.len() + i) == framed_from(q, i),
    decreases q.len() - i,
{
    let s = p + q;
    let j = p.len() + i;
    if i < q.len() {
        assert(s[j] == q[i]);
        if q[i] != 0 {
            if q[i] < 0x80 {
                if i + 1 + q[i] <= q.len() {
                    lemma_framed_shift(p, q, i + 1 + q[i]);
                }
            } else if i + 2 <= q.len() {
                lemma_framed_shift(p, q, i + 2);
            }
        }
    }
}

/// Reference bounds do not depend on what stands before the position they
/// are checked from.
pub proof fn lemma_refs_shift(p: Seq<u8>, q: Seq<u8>, i: int, n: int)
    requires
        0 <= i,
    ensures
        refs_written_from(p + q, p.len() + i, n) == refs_written_from(q, i, n),
    decreases q.len() - i,
{
    let s = p + q;
    let j = p.len() + i;
    if i < q.len() {
        assert(s[j] == q[i]);
        if q[i] != 0 {
            if q[i] < 0x80 {
                if i + 1 + q[i] <= q.len() {
                    lemma_refs_shift(p, q, i + 1 + q[i], n + q[i]);
                }
            } else if i + 2 <= q.len() {
                assert(s[j + 1] == q[i + 1]);
                lemma_refs_shift(p, q, i + 2, n + q[i] - 0x80 + 3);
            }
        }
    }
}

/// The stream written for `s[n..]` decodes, onto the bytes before `n`, to
/// all of `s`; it is framed; and its back-references reach written bytes only.
pub proof fn lemma_encode_from(s: Seq<u8>, n: int, cache: bool)
    requires
        0 <= n <= s.len(),
        cache ==> starts_back_reference(s, n),
    ensures
        decode_from(encode_from(s, n, cache), 0, s.take(n)) == Some(s),
        framed_from(encode_from(s, n, cache), 0),
        refs_written_from(encode_from(s, n, cache), 0, n),
    decreases s.len() - n,
{
    let e = encode_from(s, n, cache);
    if n == s.len() {
        assert(s.take(n) =~= s);
    } else if !cache {
        let l = run_length(s, n, 1);
        lemma_run_length(s, n, 1);
        let m = n + l;
        let flag = l < 127 && m < s.len() && starts_back_reference(s, m);
        let rest = encode_from(s, m, flag);
        let p = seq![l as u8] + s.subrange(n, m);
        assert(e == p + rest);
        lemma_encode_from(s, m, flag);
        assert(e[0] == l);
        assert(e.subrange(1, 1 + l) =~= s.subrange(n, m));
        assert(s.take(n) + s.subrange(n, m) =~= s.take(m));
        lemma_decode_shift(p, rest, 0, s.take(m));
        lemma_framed_shift(p, rest, 0);
        lemma_refs_shift(p, rest, 0, m);
    } else {
        lemma_match_at_least_three(s, n);
        let l = match_length(s, n, 1);
        let d = back_distance(s, n, l);
        lemma_farthest(s, n, l, 256);
        let m = n + l;
        let flag = m < s.len() && starts_back_reference(s, m);
        let rest = encode_from(s, m, flag);
        let p = seq![(0x80 + l - 3) as u8, (d - 1) as u8];
        assert(e == p + rest);
        lemma_encode_from(s, m, flag);
        assert(e[0] == 0x80 + l - 3);
        assert(e[1] == d - 1);
        lemma_copy_back(s, n, d, l);
        lemma_decode_shift(p, rest, 0, s.take(m));
        lemma_framed_shift(p, rest, 0);
        lemma_refs_shift(p, rest, 0, m);
    }
}

/// Decoding what the encoder writes gives back the input, for every input.
pub proof fn lemma_round_trip(s: Seq<u8>)
    ensures
        decode(encode(s)) == Some(s),
{
    lemma_encode_from(s, 0, false);
    assert(s.take(0) =~= seq![]);
}

/// Every stream the encoder writes consists of complete commands followed by
/// exactly one end byte, its last byte. (Each command byte's own range fixes
/// a run at 1 to 127 literal bytes and a back-reference at 3 to 130 bytes.)
pub proof fn lemma_encode_framed(s: Seq<u8>)
    ensures
        framed_from(encode(s), 0),
{
    lemma_encode_from(s, 0, false);
}

/// No back-reference the encoder writes reaches past the bytes already
/// written: each offset resolves to a dictionary slot filled before the
/// current write cursor.
pub proof fn lemma_encode_refs_written(s: Seq<u8>)
    ensures
        refs_written_from(encode(s), 0, 0),
{
    lemma_encode_from(s, 0, false);
}

} // verus!
