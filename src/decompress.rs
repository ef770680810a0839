//! The decoder: replays a command stream against its own dictionary.
use vstd::prelude::*;
use crate::PMDTError;
use crate::codec::{
    byte_at, copy_back, decode, decode_from, lemma_copy_back_len, lemma_slot_of, lemma_slot_step, slot,
};

verus! {

/// Decoder state: the stream with its read cursor, the 4-byte staging group
/// of buffered output (unless buffering is disabled), the output flushed so
/// far, and the 256-slot dictionary with its write cursor.
pub struct Decompress {
    init_data: Vec<u8>,
    init_ind: usize,
    output_pre_buf: Vec<u8>,
    output_pre_ind: usize,
    output_pre_disable: bool,
    output_buffer: Vec<u8>,
    decompress_buf: Vec<u8>,
    decompress_ind: usize,
}

/// The output a decoder has flushed once its logical output is `h`: all of
/// it without buffering, else only the complete groups of four bytes.
pub open spec fn flushed(h: Seq<u8>, nobuf: bool) -> Seq<u8> {
    if nobuf {
        h
    } else {
        h.take(h.len() - h.len() % 4)
    }
}

impl Decompress {
    /// The compressed stream.
    pub closed spec fn input(&self) -> Seq<u8> {
        self.init_data@
    }

    /// The output flushed so far.
    pub closed spec fn output(&self) -> Seq<u8> {
        self.output_buffer@
    }

    /// Whether buffering in groups of four bytes is disabled.
    pub closed spec fn nobuf(&self) -> bool {
        self.output_pre_disable
    }

    /// Nothing has been read or written yet.
    pub closed spec fn is_fresh(&self) -> bool {
        &&& self.init_ind == 0
        &&& self.holds(seq![])
    }

    /// The dictionary holds the last 256 bytes of the logical output `h`
    /// (zero where nothing was written) and its cursor sits after the newest.
    pub closed spec fn window_holds(&self, h: Seq<u8>) -> bool {
        &&& self.decompress_buf@.len() == 256
        &&& self.decompress_ind == slot(h.len() as int)
        &&& forall|t: int|
            h.len() - 256 <= t < h.len() ==> #[trigger] self.decompress_buf@[slot(t)] == byte_at(
                h,
                t,
            )
    }

    /// The flushed output and the staging group together hold the logical
    /// output `h`.
    pub closed spec fn out_holds(&self, h: Seq<u8>) -> bool {
        &&& self.output_pre_buf@.len() == 4
        &&& self.output_buffer@ == flushed(h, self.output_pre_disable)
        &&& self.output_pre_ind == if self.output_pre_disable {
            0
        } else {
            h.len() % 4
        }
        &&& forall|k: int|
            0 <= k < self.output_pre_ind ==> #[trigger] self.output_pre_buf@[k] == h[h.len()
                - self.output_pre_ind + k]
    }

    /// The decoder's state matches the logical output `h`.
    pub closed spec fn holds(&self, h: Seq<u8>) -> bool {
        self.window_holds(h) && self.out_holds(h)
    }

    /// A decoder for the stream `data`; `nobuf` disables buffering in groups
    /// of four bytes.
    pub fn new(data: Vec<u8>, nobuf: bool) -> (r: Decompress)
        ensures
            r.is_fresh(),
            r.input() == data@,
            r.nobuf() == nobuf,
    {
        let r = Decompress {
            init_data: data,
            init_ind: 0,
            output_pre_buf: vec![0; 4],
            output_pre_ind: 0,
            output_pre_disable: nobuf,
            output_buffer: Vec::new(),
            decompress_buf: vec![0; 256],
            decompress_ind: 0,
        };
        assert forall|t: int| -256 <= t < 0 implies #[trigger] r.decompress_buf@[slot(t)] == byte_at(
            seq![],
            t,
        ) by {
            assert(0 <= slot(t) < 256);
        }
        assert(seq![].take(0) =~= Seq::<u8>::empty());
        r
    }

    /// The output flushed, handing it over.
    pub fn into_output(self) -> (r: Vec<u8>)
        ensures
            r@ == self.output(),
    {
        self.output_buffer
    }

    fn read_init(&mut self) -> (r: u8)
        requires
            old(self).init_ind < old(self).init_data.len(),
        ensures
            r == old(self).init_data@[old(self).init_ind as int],
            final(self).init_ind == old(self).init_ind + 1,
            final(self).init_data@ == old(self).init_data@,
            final(self).output_pre_disable == old(self).output_pre_disable,
            final(self).output_pre_buf@ == old(self).output_pre_buf@,
            final(self).output_pre_ind == old(self).output_pre_ind,
            final(self).output_buffer@ == old(self).output_buffer@,
            final(self).decompress_buf@ == old(self).decompress_buf@,
            final(self).decompress_ind == old(self).decompress_ind,
    {
        let a = self.init_data[self.init_ind];
        self.init_ind += 1;
        a
    }

    /// Pushes `val` onto the dictionary of a decoder whose output is `h`.
    fn write_buf(&mut self, val: u8, Ghost(h): Ghost<Seq<u8>>)
        requires
            old(self).window_holds(h),
        ensures
            final(self).window_holds(h.push(val)),
            final(self).init_ind == old(self).init_ind,
            final(self).init_data@ == old(self).init_data@,
            final(self).output_pre_disable == old(self).output_pre_disable,
            final(self).output_pre_buf@ == old(self).output_pre_buf@,
            final(self).output_pre_ind == old(self).output_pre_ind,
            final(self).output_buffer@ == old(self).output_buffer@,
    {
        self.decompress_buf.set(self.decompress_ind, val);
        self.decompress_ind = (self.decompress_ind + 1) % 256;
        let ghost h2 = h.push(val);
        proof {
            lemma_slot_step(h.len() as int);
            assert forall|t: int| h2.len() - 256 <= t < h2.len() implies #[trigger] self.decompress_buf@[slot(
                t,
            )] == byte_at(h2, t) by {
                lemma_slot_step(h.len() as int);
                if t < h.len() {
                    assert(slot(t) != slot(h.len() as int));
                    assert(old(self).decompress_buf@[slot(t)] == byte_at(h, t));
                }
            }
        }
    }

    /// Emits `val` as the next output byte: at once without buffering, else
    /// staged until a group of four is complete.
    fn write_out(&mut self, val: u8, Ghost(h): Ghost<Seq<u8>>)
        requires
            old(self).out_holds(h),
        ensures
            final(self).out_holds(h.push(val)),
            final(self).init_ind == old(self).init_ind,
            final(self).init_data@ == old(self).init_data@,
            final(self).output_pre_disable == old(self).output_pre_disable,
            final(self).decompress_buf@ == old(self).decompress_buf@,
            final(self).decompress_ind == old(self).decompress_ind,
    {
        let ghost h2 = h.push(val);
        if !self.output_pre_disable {
            self.output_pre_buf.set(self.output_pre_ind, val);
            self.output_pre_ind += 1;
            proof {
                assert forall|k: int|
                    0 <= k < self.output_pre_ind implies #[trigger] self.output_pre_buf@[k] == h2[h2.len()
                        - self.output_pre_ind + k] by {
                    if k < self.output_pre_ind - 1 {
                        assert(self.output_pre_buf@[k] == old(self).output_pre_buf@[k]);
                    }
                }
            }
            if self.output_pre_ind == 4 {
                self.output_pre_ind = 0;
                let ghost pb = self.output_pre_buf@;
                let mut j: usize = 0;
                while j < 4
                    invariant
                        j <= 4,
                        self.output_pre_buf@ == pb,
                        pb.len() == 4,
                        h2.len() >= 4,
                        h2.len() % 4 == 0,
                        h2 == h.push(val),
                        forall|k: int| 0 <= k < 4 ==> #[trigger] pb[k] == h2[h2.len() - 4 + k],
                        self.output_pre_ind == 0,
                        self.output_pre_disable == old(self).output_pre_disable,
                        !self.output_pre_disable,
                        self.init_ind == old(self).init_ind,
                        self.init_data@ == old(self).init_data@,
                        self.decompress_buf@ == old(self).decompress_buf@,
                        self.decompress_ind == old(self).decompress_ind,
                        self.output_buffer@ == h.take(h.len() - 3) + self.output_pre_buf@.take(
                            j as int,
                        ),
                    decreases 4 - j,
                {
                    let b = self.output_pre_buf[j];
                    self.output_buffer.push(b);
                    proof {
                        assert(self.output_pre_buf@.take(j as int).push(b)
                            =~= self.output_pre_buf@.take(j + 1));
                    }
                    j += 1;
                }
                proof {
                    assert(pb.take(4) =~= pb);
                    assert(self.output_buffer@ =~= h2.take(h2.len() - h2.len() % 4));
                }
            } else {
                proof {
                    assert(h2.take(h2.len() - h2.len() % 4) =~= h.take(h.len() - h.len() % 4));
                }
            }
        } else {
            self.output_buffer.push(val);
        }
    }

    /// Replays a run command: copies its `cmd` literal bytes to the output and
    /// the dictionary. Fails when the stream holds fewer than `cmd` more bytes.
    fn cmd_run(&mut self, cmd: u8, Ghost(h): Ghost<Seq<u8>>) -> (r: Result<(), PMDTError>)
        requires
            1 <= cmd < 0x80,
            old(self).holds(h),
            old(self).init_ind <= old(self).init_data@.len(),
        ensures
            final(self).init_data@ == old(self).init_data@,
            final(self).output_pre_disable == old(self).output_pre_disable,
            ({
                let s = old(self).init_data@;
                let i = old(self).init_ind as int;
                if i + cmd > s.len() {
                    r == Err::<(), PMDTError>(PMDTError::TruncatedStream)
                } else {
                    &&& r is Ok
                    &&& final(self).init_ind == i + cmd
                    &&& final(self).holds(h + s.subrange(i, i + cmd))
                }
            }),
    {
        if self.init_data.len() - self.init_ind < cmd as usize {
            return Err(PMDTError::TruncatedStream);
        }
        let ghost s = self.init_data@;
        let ghost i = self.init_ind as int;
        let mut k: u8 = 0;
        while k < cmd
            invariant
                k <= cmd,
                0 <= i,
                i + cmd <= s.len(),
                self.init_data@ == s,
                self.init_ind == i + k,
                self.output_pre_disable == old(self).output_pre_disable,
                self.holds(h + s.subrange(i, i + k)),
            decreases cmd - k,
        {
            let ghost hk = h + s.subrange(i, i + k);
            let data = self.read_init();
            assert(data == s[i + k]);
            self.write_out(data, Ghost(hk));
            self.write_buf(data, Ghost(hk));
            proof {
                assert(s.subrange(i, i + k).push(data) =~= s.subrange(i, i + k + 1));
                assert(hk.push(data) =~= h + s.subrange(i, i + k + 1));
            }
            k += 1;
        }
        Ok(())
    }

    /// Replays a back-reference command: reads its offset byte and copies
    /// `(cmd - 0x80) + 3` bytes from the dictionary, starting `offset + 1`
    /// slots behind the write cursor; each byte goes to the output and the
    /// dictionary before the next is read. Fails when the offset byte is
    /// missing.
    fn cmd_cache(&mut self, cmd: u8, Ghost(h): Ghost<Seq<u8>>) -> (r: Result<(), PMDTError>)
        requires
            cmd >= 0x80,
            old(self).holds(h),
            old(self).init_ind <= old(self).init_data@.len(),
        ensures
            final(self).init_data@ == old(self).init_data@,
            final(self).output_pre_disable == old(self).output_pre_disable,
            ({
                let s = old(self).init_data@;
                let i = old(self).init_ind as int;
                if i + 1 > s.len() {
                    r == Err::<(), PMDTError>(PMDTError::TruncatedStream)
                } else {
                    &&& r is Ok
                    &&& final(self).init_ind == i + 1
                    &&& final(self).holds(copy_back(h, s[i] + 1, (cmd - 0x80 + 3) as nat))
                }
            }),
    {
        if self.init_ind >= self.init_data.len() {
            return Err(PMDTError::TruncatedStream);
        }
        let offset = self.read_init();
        let count: usize = (cmd - 0x80) as usize + 3;
        let ghost dist = offset + 1;
        let mut at: usize = (self.decompress_ind + 255 - offset as usize) % 256;
        proof {
            lemma_slot_of(h.len() as int, 255 - offset);
            lemma_slot_step(h.len() - dist);
        }
        let mut k: usize = 0;
        while k < count
            invariant
                k <= count,
                1 <= dist <= 256,
                self.output_pre_disable == old(self).output_pre_disable,
                self.init_data@ == old(self).init_data@,
                self.init_ind == old(self).init_ind + 1,
                self.holds(copy_back(h, dist, k as nat)),
                copy_back(h, dist, k as nat).len() == h.len() + k,
                at == slot(h.len() + k - dist),
            decreases count - k,
        {
            let ghost hk = copy_back(h, dist, k as nat);
            let data = self.decompress_buf[at];
            proof {
                assert(data == byte_at(hk, hk.len() - dist));
            }
            self.write_out(data, Ghost(hk));
            self.write_buf(data, Ghost(hk));
            proof {
                lemma_copy_back_len(h, dist, (k + 1) as nat);
                lemma_slot_step(h.len() + k - dist);
            }
            at = (at + 1) % 256;
            k += 1;
        }
        Ok(())
    }

    /// Decodes the whole stream. Succeeds exactly when `decode` of the input
    /// does; the output is then the decoded bytes, less the trailing
    /// incomplete group of four when buffering, and the result is the number
    /// of bytes so discarded (never any without buffering).
    pub fn decompress(&mut self) -> (r: Result<usize, PMDTError>)
        requires
            old(self).is_fresh(),
        ensures
            final(self).input() == old(self).input(),
            final(self).nobuf() == old(self).nobuf(),
            match decode(old(self).input()) {
                None => r == Err::<usize, PMDTError>(PMDTError::TruncatedStream),
                Some(o) => {
                    &&& r == Ok::<usize, PMDTError>(
                        if old(self).nobuf() {
                            0
                        } else {
                            (o.len() % 4) as usize
                        },
                    )
                    &&& final(self).output() == flushed(o, old(self).nobuf())
                },
            },
    {
        let ghost s = self.init_data@;
        let ghost mut h: Seq<u8> = seq![];
        loop
            invariant
                self.init_data@ == s,
                s == old(self).init_data@,
                self.init_ind <= s.len(),
                self.output_pre_disable == old(self).output_pre_disable,
                self.holds(h),
                decode_from(s, self.init_ind as int, h) == decode(s),
            decreases s.len() - self.init_ind,
        {
            if self.init_ind >= self.init_data.len() {
                return Err(PMDTError::TruncatedStream);
            }
            let ghost i = self.init_ind as int;
            let cmd = self.read_init();
            if cmd >= 0x80 {
                let r = self.cmd_cache(cmd, Ghost(h));
                if r.is_err() {
                    return Err(PMDTError::TruncatedStream);
                }
                proof {
                    h = copy_back(h, s[i + 1] + 1, (cmd - 0x80 + 3) as nat);
                }
            } else if cmd != 0 {
                let r = self.cmd_run(cmd, Ghost(h));
                if r.is_err() {
                    return Err(PMDTError::TruncatedStream);
                }
                proof {
                    h = h + s.subrange(i + 1, i + 1 + cmd);
                }
            } else {
                return Ok(self.output_pre_ind);
            }
        }
    }
}

} // verus!
