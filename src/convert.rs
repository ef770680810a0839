//! Tile-map conversion between the three storage layouts: one byte per tile,
//! one byte per tile plus a side file of 2-bit palette fields, and one
//! big-endian word per tile.
use vstd::prelude::*;
use vstd::string::{StrSliceExecFns, StringExecFns};
use crate::PMDTError;

verus! {

/// Storage layout of a mapping file, known from its file name.
#[derive(Debug, Clone, Copy, PartialEq, Eq, Structural)]
pub enum MappingType {
    Byte,
    Pal,
    Word,
}

/// `s` ends with `suffix`.
pub open spec fn ends_with(s: Seq<char>, suffix: Seq<char>) -> bool {
    suffix.len() <= s.len() && s.skip(s.len() - suffix.len()) == suffix
}

/// The layout a file name announces, if any.
pub open spec fn kind_of(name: Seq<char>) -> Option<MappingType> {
    if ends_with(name, "bgbyte"@) {
        Some(MappingType::Byte)
    } else if ends_with(name, "bgpalm"@) {
        Some(MappingType::Pal)
    } else if ends_with(name, "bgword"@) {
        Some(MappingType::Word)
    } else {
        None
    }
}

/// The name of the palette side file of `name`: its last character
/// replaced by `p`.
pub open spec fn pal_name_of(name: Seq<char>) -> Seq<char> {
    if name.len() == 0 {
        seq!['p']
    } else {
        name.drop_last().push('p')
    }
}

/// How many bytes of the main file one tile takes.
pub open spec fn tile_width(kind: MappingType) -> int {
    if kind == MappingType::Word {
        2
    } else {
        1
    }
}

/// The tile read at byte `j` of the main file `map`, with the side file
/// `pal` and the common word `cw` OR-ed in where the layout is narrower than
/// a word.
pub open spec fn tile_at(kind: MappingType, map: Seq<u8>, pal: Seq<u8>, cw: u16, j: int) -> u16 {
    match kind {
        MappingType::Byte => cw | (map[j] as u16),
        MappingType::Word => ((map[j] as u16) << 8u16) | (map[j + 1] as u16),
        MappingType::Pal => ((((pal[j / 4] as u16) >> ((2 * ((j + 1) % 4)) as u16)) << 13u16) | cw)
            | (map[j] as u16),
    }
}

/// The tiles read from byte `j` of the main file to its end.
pub open spec fn tiles_from(kind: MappingType, map: Seq<u8>, pal: Seq<u8>, cw: u16, j: int) -> Seq<
    u16,
>
    decreases map.len() - j,
{
    if j < 0 || j + tile_width(kind) > map.len() {
        seq![]
    } else {
        seq![tile_at(kind, map, pal, cw, j)] + tiles_from(kind, map, pal, cw, j + tile_width(kind))
    }
}

/// What writing the tile `val` does to an output mapping of layout `kind`
/// whose main file is `map`, side file `pal`, and pending palette byte
/// `queue` holding `queued` fields.
pub open spec fn write_spec(
    kind: MappingType,
    map: Seq<u8>,
    pal: Seq<u8>,
    queue: u8,
    queued: int,
    val: u16,
) -> (Seq<u8>, Seq<u8>, u8, int) {
    match kind {
        MappingType::Byte => (map.push(val as u8), pal, queue, queued),
        MappingType::Word => (map.push((val >> 8u16) as u8).push(val as u8), pal, queue, queued),
        MappingType::Pal => {
            let q = queue | ((((val & 0x6000u16) >> 13u16) as u8) << ((2 * (3 - queued)) as u8));
            if queued + 1 == 4 {
                (map.push(val as u8), pal.push(q), 0u8, 0int)
            } else {
                (map.push(val as u8), pal, q, queued + 1)
            }
        },
    }
}

/// Writing the tiles `vals` in order, from the state `st`.
pub open spec fn write_all(kind: MappingType, st: (Seq<u8>, Seq<u8>, u8, int), vals: Seq<u16>) -> (
    Seq<u8>,
    Seq<u8>,
    u8,
    int,
)
    decreases vals.len(),
{
    if vals.len() == 0 {
        st
    } else {
        write_all(kind, write_spec(kind, st.0, st.1, st.2, st.3, vals[0]), vals.skip(1))
    }
}

fn has_suffix(s: &str, suffix: &str) -> (r: bool)
    ensures
        r == ends_with(s@, suffix@),
{
    let n = s.unicode_len();
    let m = suffix.unicode_len();
    if m > n {
        return false;
    }
    let mut k: usize = 0;
    while k < m
        invariant
            m <= n,
            n == s@.len(),
            m == suffix@.len(),
            k <= m,
            forall|i: int| 0 <= i < k ==> s@[n - m + i] == suffix@[i],
        decreases m - k,
    {
        if s.get_char(n - m + k) != suffix.get_char(k) {
            assert(s@.skip(n - m)[k as int] != suffix@[k as int]);
            return false;
        }
        k += 1;
    }
    assert(s@.skip(n - m) =~= suffix@);
    true
}

/// The layout a file name announces: `bgbyte`, `bgpalm` or `bgword` at
/// its end.
pub fn mapping_type(filename: &str) -> (r: Result<MappingType, PMDTError>)
    ensures
        r == match kind_of(filename@) {
            Some(k) => Ok::<MappingType, PMDTError>(k),
            None => Err(PMDTError::UnknownMappingType),
        },
{
    if has_suffix(filename, "bgbyte") {
        Ok(MappingType::Byte)
    } else if has_suffix(filename, "bgpalm") {
        Ok(MappingType::Pal)
    } else if has_suffix(filename, "bgword") {
        Ok(MappingType::Word)
    } else {
        Err(PMDTError::UnknownMappingType)
    }
}

/// The name of the palette side file that goes with `filename`.
pub fn pal_filename(filename: &str) -> (r: String)
    ensures
        r@ == pal_name_of(filename@),
{
    let n = filename.unicode_len();
    let stem = if n == 0 {
        filename.substring_char(0, 0)
    } else {
        filename.substring_char(0, n - 1)
    };
    let mut r = String::from_str(stem);
    r.append("p");
    proof {
        reveal_strlit("p");
        assert(r@ =~= pal_name_of(filename@));
    }
    r
}

/// A mapping file held in memory: its main file and (for the palette
/// layout) its side file, a read cursor over the main file, and the palette
/// byte being filled by writes.
pub struct Mapping {
    filename: String,
    map_data: Vec<u8>,
    pal_data: Vec<u8>,
    pal_queue: u8,
    pal_queue_ind: usize,
    map_type: MappingType,
    common_word: u16,
    read_index: usize,
}

impl Mapping {
    pub closed spec fn name(&self) -> Seq<char> {
        self.filename@
    }

    pub closed spec fn kind(&self) -> MappingType {
        self.map_type
    }

    pub closed spec fn common(&self) -> u16 {
        self.common_word
    }

    pub closed spec fn cursor(&self) -> int {
        self.read_index as int
    }

    /// Main file, side file, pending palette byte and its field count.
    pub closed spec fn state(&self) -> (Seq<u8>, Seq<u8>, u8, int) {
        (self.map_data@, self.pal_data@, self.pal_queue, self.pal_queue_ind as int)
    }

    /// The tiles left to read.
    pub closed spec fn remaining(&self) -> Seq<u16> {
        tiles_from(self.map_type, self.map_data@, self.pal_data@, self.common_word, self.read_index as int)
    }

    /// The read cursor stays within the main file on tile boundaries, and
    /// the side file backs every tile of the main file.
    pub closed spec fn wf(&self) -> bool {
        &&& self.read_index <= self.map_data@.len()
        &&& self.pal_queue_ind < 4
        &&& self.map_type == MappingType::Word ==> self.map_data@.len() % 2 == 0
            && self.read_index % 2 == 0
        &&& self.map_type == MappingType::Pal ==> self.map_data@.len() <= 4 * self.pal_data@.len()
            + self.pal_queue_ind
    }

    /// Every tile left to read is backed by its bytes: no palette fields
    /// are pending in a palette mapping.
    pub closed spec fn readable(&self) -> bool {
        self.map_type == MappingType::Pal ==> self.pal_queue_ind == 0
    }

    /// A mapping named `filename` over the given file contents (empty for an
    /// output). Fails on an unknown extension, on a palette side file whose
    /// size is not a quarter of the main file's, and on an odd-sized word
    /// file.
    pub fn new(filename: &str, common_word: u16, map_data: Vec<u8>, pal_data: Vec<u8>) -> (r:
        Result<Mapping, PMDTError>)
        ensures
            match kind_of(filename@) {
                None => r == Err::<Mapping, PMDTError>(PMDTError::UnknownMappingType),
                Some(k) => if (k == MappingType::Pal && map_data@.len() != 4 * pal_data@.len()) || (
                k == MappingType::Word && map_data@.len() % 2 != 0) {
                    r == Err::<Mapping, PMDTError>(PMDTError::WrongMappingSize)
                } else {
                    &&& r is Ok
                    &&& r->Ok_0.wf()
                    &&& r->Ok_0.readable()
                    &&& r->Ok_0.name() == filename@
                    &&& r->Ok_0.kind() == k
                    &&& r->Ok_0.common() == common_word
                    &&& r->Ok_0.cursor() == 0
                    &&& r->Ok_0.state() == (
                        map_data@,
                        if k == MappingType::Pal {
                            pal_data@
                        } else {
                            seq![]
                        },
                        0u8,
                        0int,
                    )
                },
            },
    {
        let map_type = match mapping_type(filename) {
            Ok(k) => k,
            Err(e) => return Err(e),
        };
        let pal_data = if let MappingType::Pal = map_type {
            pal_data
        } else {
            Vec::new()
        };
        if let MappingType::Pal = map_type {
            if map_data.len() as u128 != pal_data.len() as u128 * 4 {
                return Err(PMDTError::WrongMappingSize);
            }
        }
        if let MappingType::Word = map_type {
            if map_data.len() % 2 != 0 {
                return Err(PMDTError::WrongMappingSize);
            }
        }
        Ok(Mapping {
            filename: String::from_str(filename),
            map_data,
            pal_data,
            pal_queue: 0,
            pal_queue_ind: 0,
            map_type,
            common_word,
            read_index: 0,
        })
    }

    /// Reads the next tile, or `None` once all are read.
    pub fn read(&mut self) -> (r: Option<u16>)
        requires
            old(self).wf(),
            old(self).readable(),
        ensures
            final(self).wf(),
            final(self).readable(),
            final(self).kind() == old(self).kind(),
            final(self).common() == old(self).common(),
            final(self).name() == old(self).name(),
            final(self).state() == old(self).state(),
            old(self).remaining().len() == 0 ==> r is None && final(self).cursor() == old(
                self,
            ).cursor(),
            old(self).remaining().len() > 0 ==> r == Some(old(self).remaining()[0])
                && final(self).remaining() == old(self).remaining().skip(1)
                && final(self).cursor() == old(self).cursor() + tile_width(old(self).kind()),
    {
        if self.read_index >= self.map_data.len() {
            None
        } else {
            let j = self.read_index;
            let ghost rem = self.remaining();
            let v = match self.map_type {
                MappingType::Byte => {
                    self.read_index += 1;
                    self.common_word | self.map_data[self.read_index - 1] as u16
                },
                MappingType::Word => {
                    self.read_index += 2;
                    (self.map_data[self.read_index - 2] as u16) << 8u16 | (
                    self.map_data[self.read_index - 1] as u16)
                },
                MappingType::Pal => {
                    self.read_index += 1;
                    let pal = (self.pal_data[(self.read_index - 1) / 4] as u16) >> ((2 * (
                    self.read_index % 4)) as u16);
                    (pal << 13u16) | self.common_word | (self.map_data[self.read_index - 1] as u16)
                },
            };
            proof {
                assert(rem == seq![tile_at(self.map_type, self.map_data@, self.pal_data@, self.common_word, j as int)]
                    + self.remaining());
                assert(rem.skip(1) =~= self.remaining());
            }
            Some(v)
        }
    }

    /// Writes the tile `val` in this mapping's layout.
    pub fn write(&mut self, val: u16)
        requires
            old(self).wf(),
        ensures
            final(self).wf(),
            final(self).kind() == old(self).kind(),
            final(self).common() == old(self).common(),
            final(self).name() == old(self).name(),
            final(self).cursor() == old(self).cursor(),
            final(self).state() == write_spec(
                old(self).kind(),
                old(self).state().0,
                old(self).state().1,
                old(self).state().2,
                old(self).state().3,
                val,
            ),
    {
        match self.map_type {
            MappingType::Byte => {
                self.map_data.push(val as u8);
            },
            MappingType::Word => {
                self.map_data.push((val >> 8u16) as u8);
                self.map_data.push(val as u8);
            },
            MappingType::Pal => {
                self.map_data.push(val as u8);
                self.pal_queue = self.pal_queue | ((((val & 0x6000u16) >> 13u16) as u8) << ((2 * (3
                    - self.pal_queue_ind)) as u8));
                self.pal_queue_ind += 1;
                if self.pal_queue_ind == 4 {
                    self.pal_queue_ind = 0;
                    self.pal_data.push(self.pal_queue);
                    self.pal_queue = 0;
                }
            },
        }
    }

    /// Moves the palette fields still pending into the side file, so that
    /// both files are complete.
    pub fn finish(&mut self)
        requires
            old(self).wf(),
        ensures
            final(self).wf(),
            final(self).kind() == old(self).kind(),
            final(self).name() == old(self).name(),
            final(self).common() == old(self).common(),
            final(self).cursor() == old(self).cursor(),
            final(self).state().0 == old(self).state().0,
            final(self).state().2 == old(self).state().2,
            final(self).state().3 == old(self).state().3,
            final(self).state().1 == if old(self).kind() == MappingType::Pal && old(self).state().3
                != 0 {
                old(self).state().1.push(old(self).state().2)
            } else {
                old(self).state().1
            },
    {
        if let MappingType::Pal = self.map_type {
            if self.pal_queue_ind != 0 {
                self.pal_data.push(self.pal_queue);
            }
        }
    }

    pub fn filename(&self) -> (r: &String)
        ensures
            r@ == self.name(),
    {
        &self.filename
    }

    pub fn map_type(&self) -> (r: MappingType)
        ensures
            r == self.kind(),
    {
        self.map_type
    }

    /// The main file's bytes.
    pub fn map_data(&self) -> (r: &Vec<u8>)
        ensures
            r@ == self.state().0,
    {
        &self.map_data
    }

    /// The palette side file's bytes.
    pub fn pal_data(&self) -> (r: &Vec<u8>)
        ensures
            r@ == self.state().1,
    {
        &self.pal_data
    }
}

/// A conversion from an input mapping to an output mapping.
pub struct Convert {
    input_mapping: Mapping,
    output_mapping: Mapping,
}

impl Convert {
    pub closed spec fn input(&self) -> Mapping {
        self.input_mapping
    }

    pub closed spec fn output(&self) -> Mapping {
        self.output_mapping
    }

    pub fn new(input_mapping: Mapping, output_mapping: Mapping) -> (r: Convert)
        ensures
            r.input() == input_mapping,
            r.output() == output_mapping,
    {
        Convert { input_mapping, output_mapping }
    }

    /// Reads every tile left in the input and writes it to the output.
    fn convert(&mut self)
        requires
            old(self).input().wf(),
            old(self).input().readable(),
            old(self).output().wf(),
        ensures
            final(self).output().wf(),
            final(self).output().kind() == old(self).output().kind(),
            final(self).output().name() == old(self).output().name(),
            final(self).output().state() == write_all(
                old(self).output().kind(),
                old(self).output().state(),
                old(self).input().remaining(),
            ),
    {
        let ghost target = write_all(
            self.output_mapping.kind(),
            self.output_mapping.state(),
            self.input_mapping.remaining(),
        );
        loop
            invariant
                self.input_mapping.wf(),
                self.input_mapping.readable(),
                self.output_mapping.wf(),
                self.output_mapping.kind() == old(self).output().kind(),
                self.output_mapping.name() == old(self).output().name(),
                target == write_all(
                    old(self).output().kind(),
                    old(self).output().state(),
                    old(self).input().remaining(),
                ),
                write_all(
                    self.output_mapping.kind(),
                    self.output_mapping.state(),
                    self.input_mapping.remaining(),
                ) == target,
            ensures
                self.input_mapping.remaining().len() == 0,
            decreases self.input_mapping.remaining().len(),
        {
            match self.input_mapping.read() {
                Some(val) => {
                    self.output_mapping.write(val);
                },
                None => {
                    break;
                },
            }
        }
        assert(write_all(
            self.output_mapping.kind(),
            self.output_mapping.state(),
            self.input_mapping.remaining(),
        ) == self.output_mapping.state());
    }

    /// Converts every tile of `input_mapping` into the layout of
    /// `output_mapping` and completes the output's palette side file; gives
    /// the output mapping, ready to be saved.
    pub fn run(input_mapping: Mapping, output_mapping: Mapping) -> (r: Mapping)
        requires
            input_mapping.wf(),
            input_mapping.readable(),
            output_mapping.wf(),
        ensures
            ({
                let st = write_all(
                    output_mapping.kind(),
                    output_mapping.state(),
                    input_mapping.remaining(),
                );
                &&& r.wf()
                &&& r.kind() == output_mapping.kind()
                &&& r.name() == output_mapping.name()
                &&& r.state().0 == st.0
                &&& r.state().1 == if r.kind() == MappingType::Pal && st.3 != 0 {
                    st.1.push(st.2)
                } else {
                    st.1
                }
            }),
    {
        let mut convert_instance = Convert::new(input_mapping, output_mapping);
        convert_instance.convert();
        let mut out = convert_instance.output_mapping;
        out.finish();
        out
    }
}

} // verus!
