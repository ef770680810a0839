//! The encoder: turns raw bytes into a command stream.
use vstd::prelude::*;
use crate::codec::{
    back_distance, encode, encode_from, lemma_farthest, lemma_farthest_is, lemma_farthest_none,
    lemma_match_length, lemma_prefix_found, lemma_run_length, lemma_slot_of, lemma_slot_step,
    match_length, repeats_at, run_length, slot,
    starts_back_reference,
};

verus! {

/// The kind of the command the encoder writes next.
enum CompressCommand {
    Run,
    Cache,
}

/// Encoder state: the input with its read cursor, the 256-slot dictionary
/// with its write cursor (and a backup of both for speculative searches), and
/// the stream written so far.
pub struct Compress {
    init_data: Vec<u8>,
    init_ind: usize,
    compress_buf: Vec<Option<u8>>,
    compress_ind: usize,
    compress_buf_bak: Vec<Option<u8>>,
    compress_ind_bak: usize,
    output_buffer: Vec<u8>,
}

/// What dictionary slot of history position `t` holds once the history `h`
/// has been pushed: the byte, or nothing for a position before the start.
pub open spec fn entry(h: Seq<u8>, t: int) -> Option<u8> {
    if 0 <= t < h.len() {
        Some(h[t])
    } else {
        None
    }
}

/// The offset byte written for a match `d` bytes back from history length
/// `n` is `d - 1`, whatever the cursor and the slot found.
proof fn lemma_offset(n: int, d: int)
    requires
        0 <= n,
        1 <= d <= 256,
    ensures
        ((slot(n) + 255 - slot(n - d)) % 256) as u8 == d - 1,
{
    lemma_slot_of(n, 255 - slot(n - d));
    lemma_slot_of(n - d, 255 + d - n);
    assert(slot(n - d + 255 + d - n) == 255);
}

impl Compress {
    /// The bytes to compress.
    pub closed spec fn input(&self) -> Seq<u8> {
        self.init_data@
    }

    /// The stream written so far.
    pub closed spec fn output(&self) -> Seq<u8> {
        self.output_buffer@
    }

    /// Nothing has been read or written yet and the dictionary is empty.
    pub closed spec fn is_fresh(&self) -> bool {
        &&& self.init_ind == 0
        &&& self.output_buffer@.len() == 0
        &&& self.window_holds(seq![])
    }

    /// The dictionary holds the last 256 bytes of the history `h`, its write
    /// cursor sits after the newest one, and both buffers have 256 slots.
    pub closed spec fn window_holds(&self, h: Seq<u8>) -> bool {
        &&& self.compress_buf@.len() == 256
        &&& self.compress_buf_bak@.len() == 256
        &&& self.compress_ind_bak < 256
        &&& self.compress_ind == slot(h.len() as int)
        &&& forall|t: int|
            h.len() - 256 <= t < h.len() ==> #[trigger] self.compress_buf@[slot(t)] == entry(h, t)
    }

    /// Everything but the backup buffer is as in `other`.
    pub closed spec fn same_state(&self, other: &Compress) -> bool {
        &&& self.init_data@ == other.init_data@
        &&& self.init_ind == other.init_ind
        &&& self.compress_buf@ == other.compress_buf@
        &&& self.compress_ind == other.compress_ind
        &&& self.output_buffer@ == other.output_buffer@
        &&& self.compress_buf_bak@.len() == 256
        &&& self.compress_ind_bak < 256
    }

    /// An encoder for `data`, with an empty dictionary.
    pub fn new(data: Vec<u8>) -> (r: Compress)
        ensures
            r.is_fresh(),
            r.input() == data@,
    {
        let r = Compress {
            init_data: data,
            init_ind: 0,
            compress_buf: vec![None; 256],
            compress_ind: 0,
            compress_buf_bak: vec![None; 256],
            compress_ind_bak: 0,
            output_buffer: Vec::new(),
        };
        assert forall|t: int| -256 <= t < 0 implies #[trigger] r.compress_buf@[slot(t)] == entry(
            seq![],
            t,
        ) by {
            lemma_slot_step(t);
        }
        r
    }

    /// The stream written, handing it over.
    pub fn into_output(self) -> (r: Vec<u8>)
        ensures
            r@ == self.output(),
    {
        self.output_buffer
    }

    fn read_init(&mut self) -> (r: u8)
        requires
            old(self).init_ind < old(self).init_data.len(),
        ensures
            r == old(self).init_data@[old(self).init_ind as int],
            final(self).init_ind == old(self).init_ind + 1,
            final(self).init_data@ == old(self).init_data@,
            final(self).compress_buf@ == old(self).compress_buf@,
            final(self).compress_ind == old(self).compress_ind,
            final(self).compress_buf_bak@ == old(self).compress_buf_bak@,
            final(self).compress_ind_bak == old(self).compress_ind_bak,
            final(self).output_buffer@ == old(self).output_buffer@,
    {
        let a = self.init_data[self.init_ind];
        self.init_ind += 1;
        a
    }

    fn write_out(&mut self, val: u8)
        ensures
            final(self).output_buffer@ == old(self).output_buffer@.push(val),
            final(self).init_ind == old(self).init_ind,
            final(self).init_data@ == old(self).init_data@,
            final(self).compress_buf@ == old(self).compress_buf@,
            final(self).compress_ind == old(self).compress_ind,
            final(self).compress_buf_bak@ == old(self).compress_buf_bak@,
            final(self).compress_ind_bak == old(self).compress_ind_bak,
    {
        self.output_buffer.push(val);
    }

    fn read_buf(&self, ind: usize) -> (r: Option<u8>)
        requires
            self.compress_buf@.len() == 256,
        ensures
            r == self.compress_buf@[slot(ind as int)],
    {
        self.compress_buf[ind % 256]
    }

    /// Pushes `val` onto the dictionary at the write cursor.
    fn write_buf(&mut self, val: u8)
        requires
            old(self).compress_buf@.len() == 256,
            old(self).compress_ind < 256,
        ensures
            final(self).compress_buf@ == old(self).compress_buf@.update(
                old(self).compress_ind as int,
                Some(val),
            ),
            final(self).compress_ind == (old(self).compress_ind + 1) % 256,
            final(self).init_ind == old(self).init_ind,
            final(self).init_data@ == old(self).init_data@,
            final(self).compress_buf_bak@ == old(self).compress_buf_bak@,
            final(self).compress_ind_bak == old(self).compress_ind_bak,
            final(self).output_buffer@ == old(self).output_buffer@,
    {
        self.compress_buf.set(self.compress_ind, Some(val));
        self.compress_ind = (self.compress_ind + 1) % 256;
    }

    /// Pushes the next history byte onto a dictionary that holds `h`.
    fn push_history(&mut self, val: u8, Ghost(h): Ghost<Seq<u8>>)
        requires
            old(self).window_holds(h),
        ensures
            final(self).window_holds(h.push(val)),
            final(self).init_ind == old(self).init_ind,
            final(self).init_data@ == old(self).init_data@,
            final(self).output_buffer@ == old(self).output_buffer@,
    {
        self.write_buf(val);
        let ghost h2 = h.push(val);
        proof {
            lemma_slot_step(h.len() as int);
            assert forall|t: int| h2.len() - 256 <= t < h2.len() implies #[trigger] self.compress_buf@[slot(
                t,
            )] == entry(h2, t) by {
                lemma_slot_step(h.len() as int);
                if t < h.len() {
                    assert(slot(t) != slot(h.len() as int));
                    assert(old(self).compress_buf@[slot(t)] == entry(h, t));
                }
            }
        }
    }

    /// Saves the dictionary and its cursor.
    fn backup_buf(&mut self)
        requires
            old(self).compress_buf@.len() == 256,
            old(self).compress_buf_bak@.len() == 256,
            old(self).compress_ind < 256,
        ensures
            final(self).compress_buf_bak@ == old(self).compress_buf@,
            final(self).compress_ind_bak == old(self).compress_ind,
            final(self).compress_buf@ == old(self).compress_buf@,
            final(self).compress_ind == old(self).compress_ind,
            final(self).init_ind == old(self).init_ind,
            final(self).init_data@ == old(self).init_data@,
            final(self).output_buffer@ == old(self).output_buffer@,
    {
        let mut j: usize = 0;
        while j < 256
            invariant
                j <= 256,
                self.compress_buf@ == old(self).compress_buf@,
                self.compress_buf@.len() == 256,
                self.compress_buf_bak@.len() == 256,
                forall|k: int| 0 <= k < j ==> self.compress_buf_bak@[k] == self.compress_buf@[k],
                self.compress_ind == old(self).compress_ind,
                self.init_ind == old(self).init_ind,
                self.init_data@ == old(self).init_data@,
                self.output_buffer@ == old(self).output_buffer@,
            decreases 256 - j,
        {
            let b = self.compress_buf[j];
            self.compress_buf_bak.set(j, b);
            j += 1;
        }
        self.compress_ind_bak = self.compress_ind;
        assert(self.compress_buf_bak@ =~= self.compress_buf@);
    }

    /// Puts back the dictionary and cursor saved last.
    fn restore_buf(&mut self)
        requires
            old(self).compress_buf@.len() == 256,
            old(self).compress_buf_bak@.len() == 256,
        ensures
            final(self).compress_buf@ == old(self).compress_buf_bak@,
            final(self).compress_ind == old(self).compress_ind_bak,
            final(self).compress_buf_bak@ == old(self).compress_buf_bak@,
            final(self).compress_ind_bak == old(self).compress_ind_bak,
            final(self).init_ind == old(self).init_ind,
            final(self).init_data@ == old(self).init_data@,
            final(self).output_buffer@ == old(self).output_buffer@,
    {
        let mut j: usize = 0;
        while j < 256
            invariant
                j <= 256,
                self.compress_buf_bak@ == old(self).compress_buf_bak@,
                self.compress_buf_bak@.len() == 256,
                self.compress_buf@.len() == 256,
                forall|k: int| 0 <= k < j ==> self.compress_buf@[k] == self.compress_buf_bak@[k],
                self.compress_ind_bak == old(self).compress_ind_bak,
                self.init_ind == old(self).init_ind,
                self.init_data@ == old(self).init_data@,
                self.output_buffer@ == old(self).output_buffer@,
            decreases 256 - j,
        {
            let b = self.compress_buf_bak[j];
            self.compress_buf.set(j, b);
            j += 1;
        }
        self.compress_ind = self.compress_ind_bak;
        assert(self.compress_buf@ =~= self.compress_buf_bak@);
    }
    /// Searches the dictionary for `a`, the input bytes `s[n..n+a.len()]`
    /// that follow the history `s[..n]` it holds. Candidate starts are tried
    /// in ascending order from the write cursor, wrapping through all 256
    /// slots, so the oldest occurrence wins. Where a candidate would read
    /// slots at or past the cursor, the bytes confirmed so far are first
    /// written there provisionally, as the decoder will have written them by
    /// then; the dictionary is restored before returning. Gives the slot the
    /// match starts at.
    fn find_in_buf(&mut self, a: &Vec<u8>, Ghost(s): Ghost<Seq<u8>>, Ghost(n): Ghost<int>) -> (r:
        Option<u8>)
        requires
            old(self).window_holds(s.take(n)),
            0 <= n,
            1 <= a@.len() <= 130,
            n + a@.len() <= s.len(),
            a@ == s.subrange(n, n + a@.len()),
        ensures
            final(self).same_state(old(self)),
            (r is Some) == (back_distance(s, n, a@.len() as int) > 0),
            back_distance(s, n, a@.len() as int) > 0 ==> r == Some(
                slot(n - back_distance(s, n, a@.len() as int)) as u8,
            ),
    {
        let ghost len = a@.len() as int;
        let ghost h = s.take(n);
        let ghost buf0 = self.compress_buf@;
        self.backup_buf();
        let c = self.compress_ind_bak;
        let mut i: usize = c;
        while i < 256 + c
            invariant
                c == self.compress_ind_bak,
                c == slot(n),
                c <= i <= 256 + c,
                self.compress_buf_bak@ == buf0,
                self.compress_buf@.len() == 256,
                buf0.len() == 256,
                self.compress_ind < 256,
                i + len < 256 + c ==> self.compress_buf@ == buf0 && self.compress_ind == c,
                forall|t: int| n - 256 <= t < n ==> #[trigger] buf0[slot(t)] == entry(h, t),
                forall|d: int| 256 - (i - c) < d <= 256 ==> !#[trigger] repeats_at(s, n, d, len),
                h == s.take(n),
                0 <= n,
                len == a@.len(),
                1 <= len <= 130,
                n + len <= s.len(),
                a@ == s.subrange(n, n + len),
                self.init_ind == old(self).init_ind,
                self.init_data@ == old(self).init_data@,
                self.output_buffer@ == old(self).output_buffer@,
                buf0 == old(self).compress_buf@,
                c == old(self).compress_ind,
            decreases 256 + c - i,
        {
            let race = i + a.len() >= 256 + c;
            if race {
                self.restore_buf();
            }
            let ghost d = 256 - (i - c);
            let mut pos: usize = 0;
            let mut matched = true;
            while matched && pos < a.len()
                invariant
                    c <= i < 256 + c,
                    c == slot(n),
                    c < 256,
                    d == 256 - (i - c),
                    race == (i + len >= 256 + c),
                    pos <= len,
                    len == a@.len(),
                    1 <= len <= 130,
                    n + len <= s.len(),
                    0 <= n,
                    a@ == s.subrange(n, n + len),
                    h == s.take(n),
                    buf0.len() == 256,
                    self.compress_buf@.len() == 256,
                    self.compress_buf_bak@ == buf0,
                    self.compress_ind_bak == c,
                    forall|t: int| n - 256 <= t < n ==> #[trigger] buf0[slot(t)] == entry(h, t),
                    matched ==> (pos > 0 ==> d <= n),
                    matched ==> forall|k: int| 0 <= k < pos ==> #[trigger] s[n - d + k] == s[n + k],
                    !matched ==> !repeats_at(s, n, d, len),
                    race ==> self.compress_ind == slot(c + pos),
                    race ==> forall|t: int|
                        c <= t < c + 256 ==> #[trigger] self.compress_buf@[slot(t)] == if t < c
                            + pos {
                            Some(a@[t - c])
                        } else {
                            buf0[slot(t)]
                        },
                    !race ==> self.compress_buf@ == buf0 && self.compress_ind == c,
                    self.init_ind == old(self).init_ind,
                    self.init_data@ == old(self).init_data@,
                    self.output_buffer@ == old(self).output_buffer@,
                decreases len - pos + if matched {
                    1int
                } else {
                    0int
                },
            {
                let got = self.read_buf(i + pos);
                let want = a[pos];
                let hit = match got {
                    Some(val) => val == want,
                    None => false,
                };
                proof {
                    let t = i + pos;
                    let tp = n - d + pos;
                    assert(a@[pos as int] == s[n + pos]);
                    if t < c + 256 {
                        lemma_slot_of(n, t - c);
                        lemma_slot_step(n + t - c);
                        assert(slot(t) == slot(tp));
                        if race {
                            assert(self.compress_buf@[slot(t)] == buf0[slot(t)]);
                        }
                        assert(got == entry(h, tp));
                    } else {
                        lemma_slot_step(t - 256);
                        assert(self.compress_buf@[slot(t - 256)] == Some(a@[t - 256 - c]));
                        assert(got == Some(s[tp]));
                    }
                }
                if hit {
                    if race {
                        let ghost before = self.compress_buf@;
                        self.write_buf(want);
                        proof {
                            lemma_slot_step(c + pos);
                            assert forall|t: int| c <= t < c + 256 implies #[trigger] self.compress_buf@[slot(
                                t,
                            )] == if t < c + pos + 1 {
                                Some(a@[t - c])
                            } else {
                                buf0[slot(t)]
                            } by {
                                lemma_slot_step(t);
                                lemma_slot_step(c + pos);
                                if t != c + pos {
                                    assert(slot(t) != slot(c + pos));
                                    assert(self.compress_buf@[slot(t)] == before[slot(t)]);
                                }
                            }
                        }
                    }
                    pos += 1;
                } else {
                    matched = false;
                }
            }
            if matched {
                proof {
                    assert(repeats_at(s, n, d, len));
                    lemma_farthest_is(s, n, len, d);
                    lemma_slot_of(n, 256 - d);
                    lemma_slot_step(n - d);
                }
                self.restore_buf();
                return Some((i % 256) as u8);
            }
            i += 1;
        }
        proof {
            lemma_farthest_none(s, n, len);
        }
        self.restore_buf();
        None
    }
    /// Decides whether the next command is a back-reference: the next input
    /// byte must occur in the dictionary, three bytes must remain, and those
    /// three must occur as well.
    fn determine_next_command(&mut self, Ghost(s): Ghost<Seq<u8>>) -> (r: CompressCommand)
        requires
            old(self).init_data@ == s,
            old(self).init_ind < s.len(),
            old(self).window_holds(s.take(old(self).init_ind as int)),
        ensures
            final(self).same_state(old(self)),
            final(self).window_holds(s.take(old(self).init_ind as int)),
            (r is Cache) == starts_back_reference(s, old(self).init_ind as int),
    {
        let n = self.init_ind;
        let mut v3: Vec<u8> = Vec::new();
        v3.push(self.init_data[n]);
        proof {
            assert(v3@ =~= s.subrange(n as int, n + 1));
        }
        if self.find_in_buf(&v3, Ghost(s), Ghost(n as int)).is_none() {
            proof {
                if n + 3 <= s.len() && back_distance(s, n as int, 3) > 0 {
                    lemma_prefix_found(s, n as int, 3, 1);
                }
            }
            CompressCommand::Run
        } else if self.init_data.len() - n <= 2 {
            CompressCommand::Run
        } else {
            v3.push(self.init_data[n + 1]);
            v3.push(self.init_data[n + 2]);
            proof {
                assert(v3@ =~= s.subrange(n as int, n + 3));
            }
            if self.find_in_buf(&v3, Ghost(s), Ghost(n as int)).is_some() {
                CompressCommand::Cache
            } else {
                CompressCommand::Run
            }
        }
    }

    /// Writes a literal run taken from the input, pushing its bytes into the
    /// dictionary, and tells what command follows it. The run ends at 127
    /// bytes, at the end of the input, or where a back-reference may start.
    fn emit_run(&mut self, Ghost(s): Ghost<Seq<u8>>) -> (next: CompressCommand)
        requires
            old(self).init_data@ == s,
            old(self).init_ind < s.len(),
            old(self).window_holds(s.take(old(self).init_ind as int)),
        ensures
            ({
                let n0 = old(self).init_ind as int;
                let l = run_length(s, n0, 1);
                &&& final(self).init_data@ == s
                &&& final(self).init_ind == n0 + l
                &&& final(self).window_holds(s.take(n0 + l))
                &&& final(self).output_buffer@ == old(self).output_buffer@ + seq![l as u8]
                    + s.subrange(n0, n0 + l)
                &&& (next is Cache) == (l < 127 && n0 + l < s.len() && starts_back_reference(
                    s,
                    n0 + l,
                ))
            }),
    {
        let ghost n0 = self.init_ind as int;
        let ghost out0 = self.output_buffer@;
        let mut next_command = CompressCommand::Run;
        let mut v: Vec<u8> = Vec::new();
        let b = self.read_init();
        v.push(b);
        proof {
            assert(s.take(n0).push(b) =~= s.take(n0 + 1));
            assert(v@ =~= s.subrange(n0, n0 + 1));
        }
        self.push_history(b, Ghost(s.take(n0)));
        loop
            invariant_except_break
                next_command is Run,
            invariant
                self.init_data@ == s,
                0 <= n0,
                1 <= v.len() <= 127,
                self.init_ind == n0 + v.len(),
                self.init_ind <= s.len(),
                v@ == s.subrange(n0, self.init_ind as int),
                self.window_holds(s.take(self.init_ind as int)),
                self.output_buffer@ == out0,
                run_length(s, n0, 1) == run_length(s, n0, v.len() as int),
            ensures
                v.len() == run_length(s, n0, 1),
                (next_command is Cache) == (v.len() < 127 && self.init_ind < s.len()
                    && starts_back_reference(s, self.init_ind as int)),
            decreases 127 - v.len(),
        {
            if self.init_ind >= self.init_data.len() || v.len() == 127 {
                break;
            }
            next_command = self.determine_next_command(Ghost(s));
            if let CompressCommand::Cache = next_command {
                break;
            }
            let b = self.read_init();
            v.push(b);
            proof {
                assert(s.take(n0 + v.len() - 1).push(b) =~= s.take(n0 + v.len()));
                assert(v@ =~= s.subrange(n0, n0 + v.len()));
            }
            self.push_history(b, Ghost(s.take(n0 + v.len() - 1)));
        }
        let ghost l = v.len() as int;
        self.write_out(v.len() as u8);
        let mut j: usize = 0;
        while j < v.len()
            invariant
                j <= v.len(),
                self.output_buffer@ == out0.push(l as u8) + v@.take(j as int),
                self.init_data@ == s,
                self.init_ind == n0 + l,
                self.window_holds(s.take(self.init_ind as int)),
            decreases v.len() - j,
        {
            self.write_out(v[j]);
            proof {
                assert(v@.take(j as int).push(v@[j as int]) =~= v@.take(j + 1));
            }
            j += 1;
        }
        proof {
            assert(v@.take(l) =~= v@);
            assert(out0.push(l as u8) =~= out0 + seq![l as u8]);
        }
        next_command
    }

    /// Reads the longest prefix of the remaining input (up to 130 bytes)
    /// that occurs in the dictionary; the dictionary is left as it was.
    fn read_match(&mut self, Ghost(s): Ghost<Seq<u8>>) -> (v: Vec<u8>)
        requires
            old(self).init_data@ == s,
            starts_back_reference(s, old(self).init_ind as int),
            old(self).window_holds(s.take(old(self).init_ind as int)),
        ensures
            ({
                let n0 = old(self).init_ind as int;
                let l = match_length(s, n0, 1);
                &&& 3 <= l <= 130
                &&& n0 + l <= s.len()
                &&& v@.len() == l
                &&& v@ == s.subrange(n0, n0 + l)
                &&& back_distance(s, n0, l) > 0
                &&& final(self).init_data@ == s
                &&& final(self).init_ind == n0 + l
                &&& final(self).window_holds(s.take(n0))
                &&& final(self).output_buffer@ == old(self).output_buffer@
            }),
    {
        let ghost n0 = self.init_ind as int;
        let ghost out0 = self.output_buffer@;
        proof {
            lemma_prefix_found(s, n0, 3, 1);
        }
        let mut v: Vec<u8> = Vec::new();
        let first = self.read_init();
        v.push(first);
        proof {
            assert(v@ =~= s.subrange(n0, n0 + 1));
        }
        let mut remove_value = true;
        loop
            invariant_except_break
                remove_value,
                v.len() < 130,
                back_distance(s, n0, v.len() as int) > 0,
                match_length(s, n0, 1) == match_length(s, n0, v.len() as int),
            invariant
                self.init_data@ == s,
                1 <= v.len() <= 130,
                self.init_ind == n0 + v.len(),
                self.init_ind <= s.len(),
                v@ == s.subrange(n0, self.init_ind as int),
                self.window_holds(s.take(n0)),
                self.output_buffer@ == out0,
                0 <= n0,
            ensures
                remove_value ==> 2 <= v.len() && match_length(s, n0, 1) == v.len() - 1
                    && back_distance(s, n0, v.len() - 1) > 0,
                !remove_value ==> match_length(s, n0, 1) == v.len() && back_distance(
                    s,
                    n0,
                    v.len() as int,
                ) > 0,
            decreases 130 - v.len(),
        {
            let ghost l0 = v.len() as int;
            if self.init_ind >= self.init_data.len() {
                remove_value = false;
                assert(match_length(s, n0, l0) == l0);
                break;
            }
            v.push(self.read_init());
            proof {
                assert(v@ =~= s.subrange(n0, n0 + v.len()));
            }
            if self.find_in_buf(&v, Ghost(s), Ghost(n0)).is_none() {
                assert(match_length(s, n0, l0) == l0);
                break;
            }
            assert(match_length(s, n0, l0) == match_length(s, n0, l0 + 1));
            if self.init_ind >= self.init_data.len() {
                remove_value = false;
                assert(match_length(s, n0, l0 + 1) == l0 + 1);
                break;
            }
            if v.len() >= 130 {
                remove_value = false;
                assert(match_length(s, n0, l0 + 1) == l0 + 1);
                break;
            }
        }
        if remove_value {
            v.pop();
            self.init_ind -= 1;
            proof {
                assert(v@ =~= s.subrange(n0, n0 + v.len()));
            }
        }
        proof {
            lemma_prefix_found(s, n0, 3, 2);
            assert(match_length(s, n0, 1) == match_length(s, n0, 2));
            lemma_match_length(s, n0, 3);
            assert(match_length(s, n0, 2) == match_length(s, n0, 3));
        }
        v
    }

    /// Writes a back-reference for the longest prefix of the remaining input
    /// (up to 130 bytes) that occurs in the dictionary, pointing at its oldest
    /// occurrence, pushes the bytes it covers, and tells what command follows.
    fn emit_cache(&mut self, Ghost(s): Ghost<Seq<u8>>) -> (next: CompressCommand)
        requires
            old(self).init_data@ == s,
            starts_back_reference(s, old(self).init_ind as int),
            old(self).window_holds(s.take(old(self).init_ind as int)),
        ensures
            ({
                let n0 = old(self).init_ind as int;
                let l = match_length(s, n0, 1);
                &&& final(self).init_data@ == s
                &&& final(self).init_ind == n0 + l
                &&& final(self).window_holds(s.take(n0 + l))
                &&& final(self).output_buffer@ == old(self).output_buffer@ + seq![
                    (0x80 + l - 3) as u8,
                    (back_distance(s, n0, l) - 1) as u8,
                ]
                &&& (next is Cache) == (n0 + l < s.len() && starts_back_reference(s, n0 + l))
            }),
    {
        let ghost n0 = self.init_ind as int;
        let ghost out0 = self.output_buffer@;
        let v = self.read_match(Ghost(s));
        let ghost l = v.len() as int;
        let ghost d = back_distance(s, n0, l);
        proof {
            lemma_farthest(s, n0, l, 256);
        }
        let found = self.find_in_buf(&v, Ghost(s), Ghost(n0));
        let ind = found.unwrap();
        self.write_out(0x80 + (v.len() as u8 - 3));
        let offset = ((self.compress_ind + 255 - ind as usize) % 256) as u8;
        proof {
            lemma_offset(n0, d);
        }
        self.write_out(offset);
        let mut j: usize = 0;
        while j < v.len()
            invariant
                j <= v.len(),
                v.len() == l,
                v@ == s.subrange(n0, n0 + l),
                n0 + l <= s.len(),
                0 <= n0,
                self.output_buffer@ == out0.push((0x80 + l - 3) as u8).push((d - 1) as u8),
                self.init_data@ == s,
                self.init_ind == n0 + l,
                self.window_holds(s.take(n0 + j)),
            decreases v.len() - j,
        {
            proof {
                assert(s.take(n0 + j).push(v@[j as int]) =~= s.take(n0 + j + 1));
            }
            self.push_history(v[j], Ghost(s.take(n0 + j)));
            j += 1;
        }
        proof {
            assert(out0.push((0x80 + l - 3) as u8).push((d - 1) as u8) =~= out0 + seq![
                (0x80 + l - 3) as u8,
                (d - 1) as u8,
            ]);
        }
        if self.init_ind < self.init_data.len() {
            self.determine_next_command(Ghost(s))
        } else {
            CompressCommand::Run
        }
    }

    /// Compresses the whole input. The stream written is exactly `encode`
    /// of the input: literal runs and back-references chosen as `encode`
    /// states, then one end byte.
    pub fn compress(&mut self)
        requires
            old(self).is_fresh(),
        ensures
            final(self).input() == old(self).input(),
            final(self).output() == encode(old(self).input()),
    {
        let ghost s = self.init_data@;
        let mut next_command = CompressCommand::Run;
        proof {
            assert(s.take(0) =~= seq![]);
        }
        while self.init_ind < self.init_data.len()
            invariant
                self.init_data@ == s,
                self.init_ind <= s.len(),
                self.window_holds(s.take(self.init_ind as int)),
                self.output_buffer@ + encode_from(s, self.init_ind as int, next_command is Cache)
                    == encode(s),
                next_command is Cache ==> starts_back_reference(s, self.init_ind as int),
            decreases s.len() - self.init_ind,
        {
            let ghost n0 = self.init_ind as int;
            let ghost out0 = self.output_buffer@;
            match next_command {
                CompressCommand::Run => {
                    next_command = self.emit_run(Ghost(s));
                    proof {
                        let l = run_length(s, n0, 1);
                        lemma_run_length(s, n0, 1);
                        let flag = l < 127 && n0 + l < s.len() && starts_back_reference(s, n0 + l);
                        assert(encode_from(s, n0, false) == seq![l as u8] + s.subrange(n0, n0 + l)
                            + encode_from(s, n0 + l, flag));
                        assert(self.output_buffer@ + encode_from(s, n0 + l, flag) =~= out0
                            + encode_from(s, n0, false));
                    }
                },
                CompressCommand::Cache => {
                    next_command = self.emit_cache(Ghost(s));
                    proof {
                        let l = match_length(s, n0, 1);
                        lemma_match_length(s, n0, 1);
                        let d = back_distance(s, n0, l);
                        let flag = n0 + l < s.len() && starts_back_reference(s, n0 + l);
                        assert(encode_from(s, n0, true) == seq![(0x80 + l - 3) as u8, (d - 1) as u8]
                            + encode_from(s, n0 + l, flag));
                        assert(self.output_buffer@ + encode_from(s, n0 + l, flag) =~= out0
                            + encode_from(s, n0, true));
                    }
                },
            }
        }
        proof {
            assert(encode_from(s, self.init_ind as int, next_command is Cache) == seq![0u8]);
        }
        self.write_out(0);
    }
}

} // verus!
