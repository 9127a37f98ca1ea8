//! The structure of a decompressed save: a little-endian `u32` count of
//! sections, then the sections, each an index byte, an unknown `u32`, a
//! `u32` size and that many bytes of data.

use vstd::prelude::*;
use std::collections::VecDeque;
use byteorder::{ByteOrder, LittleEndian};

verus! {

/// One section of a save.
pub struct SaveSection {
    pub index: u8,
    pub unknown: u32,
    pub size: usize,
    pub data: Vec<u8>,
}

/// The sections read from a save, with what is left of it.
pub struct SaveSections {
    /// The section count at the start, where the save holds four bytes.
    pub declared: Option<u32>,
    /// The sections read, in order; fewer than declared where the save ran
    /// out of bytes for a section header.
    pub sections: Vec<SaveSection>,
    /// Number of bytes after the last section read.
    pub remaining: usize,
}

/// The little-endian value of four bytes.
pub open spec fn le_u32(b0: u8, b1: u8, b2: u8, b3: u8) -> u32 {
    (b0 as int + 256 * b1 as int + 65536 * b2 as int + 16777216 * b3 as int) as u32
}

/// The little-endian value of the four bytes of `s` at `p`.
pub open spec fn le_u32_at(s: Seq<u8>, p: int) -> u32 {
    le_u32(s[p], s[p + 1], s[p + 2], s[p + 3])
}

/// The sections (index, unknown, data) of up to `count` sections read from
/// `s`, and the bytes after them. Reading stops where fewer than nine bytes
/// are left for a section header.
pub open spec fn sections_spec(s: Seq<u8>, count: int) -> (Seq<(u8, u32, Seq<u8>)>, Seq<u8>)
    decreases count,
{
    if count <= 0 || s.len() < 9 {
        (Seq::empty(), s)
    } else {
        let size = le_u32_at(s, 5) as int;
        let data = s.subrange(9, 9 + size);
        let (rest_sections, rest) = sections_spec(s.skip(9 + size), count - 1);
        (seq![(s[0], le_u32_at(s, 1), data)] + rest_sections, rest)
    }
}

/// Every section header read from `s` declares a size that the bytes after
/// it hold.
pub open spec fn sections_fit(s: Seq<u8>, count: int) -> bool
    decreases count,
{
    if count <= 0 || s.len() < 9 {
        true
    } else {
        let size = le_u32_at(s, 5) as int;
        9 + size <= s.len() && sections_fit(s.skip(9 + size), count - 1)
    }
}

/// What `parse_save_sections` reads from `s`: the count where there is one,
/// the sections and the number of bytes left.
pub open spec fn save_spec(s: Seq<u8>) -> (Option<u32>, Seq<(u8, u32, Seq<u8>)>, int) {
    if s.len() < 4 {
        (None, Seq::empty(), s.len() as int)
    } else {
        let count = le_u32_at(s, 0);
        let (sections, rest) = sections_spec(s.skip(4), count as int);
        (Some(count), sections, rest.len() as int)
    }
}

/// The save is read without a section that claims more bytes than are left.
pub open spec fn save_fits(s: Seq<u8>) -> bool {
    s.len() >= 4 ==> sections_fit(s.skip(4), le_u32_at(s, 0) as int)
}

/// The value of four bytes read least significant first.
proof fn lemma_le_u32_value(b: Seq<u8>)
    requires
        b.len() == 4,
    ensures
        le_u32(b[0], b[1], b[2], b[3]) as int == b[0] + 256 * b[1] + 65536 * b[2] + 16777216 * b[3],
{
}

/// A section is read as: its index byte, four bytes of the unknown value,
/// four bytes of the size (least significant first), then exactly as many
/// data bytes as the size says; the next section is read right after them.
/// So a header whose size bytes give the length of `d`, followed by `d` and
/// any bytes `rest`, reads as the section with data `d`, then the sections
/// read from `rest`.
pub proof fn lemma_section_read(
    index: u8,
    unknown: Seq<u8>,
    size: Seq<u8>,
    d: Seq<u8>,
    rest: Seq<u8>,
    count: int,
)
    requires
        unknown.len() == 4,
        size.len() == 4,
        size[0] + 256 * size[1] + 65536 * size[2] + 16777216 * size[3] == d.len(),
        count >= 1,
    ensures
        ({
            let (sections, after) = sections_spec(seq![index] + unknown + size + d + rest, count);
            let (rest_sections, rest_after) = sections_spec(rest, count - 1);
            &&& sections.len() == 1 + rest_sections.len()
            &&& sections[0].0 == index
            &&& sections[0].1 as int == unknown[0] + 256 * unknown[1] + 65536 * unknown[2]
                + 16777216 * unknown[3]
            &&& sections[0].2 == d
            &&& sections.skip(1) == rest_sections
            &&& after == rest_after
        }),
{
    let s = seq![index] + unknown + size + d + rest;
    lemma_le_u32_value(unknown);
    lemma_le_u32_value(size);
    assert(s.subrange(1, 5) =~= unknown);
    assert(s.subrange(5, 9) =~= size);
    assert(le_u32_at(s, 1) == le_u32(unknown[0], unknown[1], unknown[2], unknown[3]));
    assert(le_u32_at(s, 5) == le_u32(size[0], size[1], size[2], size[3]));
    assert(s.subrange(9, 9 + d.len() as int) =~= d);
    assert(s.skip(9 + d.len() as int) =~= rest);
    let (rs, ra) = sections_spec(rest, count - 1);
    assert((seq![(index, le_u32_at(s, 1), d)] + rs).skip(1) =~= rs);
}

/// A save starts with the section count, four bytes least significant first;
/// the sections are read from the bytes after it, at most that many.
pub proof fn lemma_save_read(count: Seq<u8>, rest: Seq<u8>)
    requires
        count.len() == 4,
    ensures
        ({
            let n = count[0] + 256 * count[1] + 65536 * count[2] + 16777216 * count[3];
            let (declared, sections, remaining) = save_spec(count + rest);
            &&& declared matches Some(c) && c as int == n
            &&& sections == sections_spec(rest, n).0
            &&& remaining == sections_spec(rest, n).1.len()
        }),
{
    let s = count + rest;
    lemma_le_u32_value(count);
    assert(s.subrange(0, 4) =~= count);
    assert(le_u32_at(s, 0) == le_u32(count[0], count[1], count[2], count[3]));
    assert(s.skip(4) =~= rest);
}

/// Calls `byteorder::LittleEndian::read_u32`, which reads the first four
/// bytes of `buf` as a little-endian `u32` (and panics on fewer than four,
/// which the `requires` rules out). Trusted: the claim is that it returns
/// `le_u32` of those bytes.
#[verifier::external_body]
fn read_u32_le(buf: &[u8]) -> (v: u32)
    requires
        buf@.len() >= 4,
    ensures
        v == le_u32(buf@[0], buf@[1], buf@[2], buf@[3]),
{
    LittleEndian::read_u32(buf)
}

impl SaveSection {
    pub fn new(index: u8, unknown: u32, size: usize, data: Vec<u8>) -> (s: Self)
        ensures
            s.index == index,
            s.unknown == unknown,
            s.size == size,
            s.data@ == data@,
    {
        Self { index: index, unknown: unknown, size: size, data: data }
    }
}

/// Takes a little-endian `u32` from the front of the queue, where it holds
/// four bytes.
fn pop_u32(deque: &mut VecDeque<u8>) -> (res: Option<u32>)
    ensures
        old(deque)@.len() >= 4 ==> res == Some(le_u32_at(old(deque)@, 0)) && final(deque)@
            == old(deque)@.skip(4),
        old(deque)@.len() < 4 ==> res is None && final(deque)@ == old(deque)@,
{
    if deque.len() >= 4 {
        let ghost d0 = deque@;
        let mut buf: [u8; 4] = [0; 4];
        let mut i: usize = 0;
        while i < 4
            invariant
                i <= 4,
                d0.len() >= 4,
                deque@ == d0.skip(i as int),
                forall|k: int| 0 <= k < i ==> buf@[k] == d0[k],
            decreases 4 - i,
        {
            let ghost before = deque@;
            match deque.pop_front() {
                Some(b) => {
                    buf[i] = b;
                },
                None => {},
            }
            assert(deque@ =~= d0.skip(i + 1));
            i = i + 1;
        }
        Some(read_u32_le(&buf))
    } else {
        None
    }
}

/// Splits a decompressed save into its sections (see `save_spec`).
pub fn parse_save_sections(data: Vec<u8>) -> (res: SaveSections)
    requires
        save_fits(data@),
    ensures
        ({
            let (declared, sections, remaining) = save_spec(data@);
            &&& res.declared == declared
            &&& res.remaining == remaining
            &&& res.sections@.len() == sections.len()
            &&& forall|k: int|
                0 <= k < sections.len() ==> {
                    let sec = #[trigger] res.sections@[k];
                    &&& sec.index == sections[k].0
                    &&& sec.unknown == sections[k].1
                    &&& sec.data@ == sections[k].2
                    &&& sec.size == sections[k].2.len()
                }
        }),
{
    let mut data_queue: VecDeque<u8> = VecDeque::new();
    let mut p: usize = 0;
    while p < data.len()
        invariant
            p <= data@.len(),
            data_queue@ == data@.take(p as int),
        decreases data@.len() - p,
    {
        data_queue.push_back(data[p]);
        p = p + 1;
        assert(data_queue@ =~= data@.take(p as int));
    }
    assert(data@.take(p as int) =~= data@);
    let mut result: Vec<SaveSection> = Vec::new();
    let declared = pop_u32(&mut data_queue);
    match declared {
        Some(sections) => {
            let ghost all = data@.skip(4);
            let mut i: u32 = 0;
            assert(result_view(result@) + sections_spec(all, sections as int).0 =~= sections_spec(all, sections as int).0);
            while i < sections && data_queue.len() >= 9
                invariant
                    i <= sections,
                    sections_fit(data_queue@, sections - i),
                    sections_spec(all, sections as int) == ({
                        let (rs, rest) = sections_spec(data_queue@, sections - i);
                        (result_view(result@) + rs, rest)
                    }),
                    forall|k: int| 0 <= k < result@.len() ==> #[trigger] result@[k].size == result@[k].data@.len(),
                decreases sections - i,
            {
                let ghost q = data_queue@;
                let ghost c = sections - i;
                let ghost size_spec = le_u32_at(q, 5) as int;
                let ghost r0 = result@;
                let index = data_queue.pop_front().unwrap();
                let unknown = pop_u32(&mut data_queue).unwrap();
                assert(q.skip(1).skip(4) =~= q.skip(5));
                let size = pop_u32(&mut data_queue).unwrap() as usize;
                assert(q.skip(5).skip(4) =~= q.skip(9));
                assert(unknown == le_u32_at(q, 1));
                assert(size == size_spec);
                let mut section_data: Vec<u8> = Vec::new();
                let mut k: usize = 0;
                while k < size
                    invariant
                        k <= size,
                        9 + size <= q.len(),
                        data_queue@ == q.skip(9 + k),
                        section_data@ == q.subrange(9, 9 + k),
                    decreases size - k,
                {
                    let b = data_queue.pop_front().unwrap();
                    section_data.push(b);
                    k = k + 1;
                    assert(data_queue@ =~= q.skip(9 + k));
                    assert(section_data@ =~= q.subrange(9, 9 + k));
                }
                let section = SaveSection::new(index, unknown, size, section_data);
                result.push(section);
                i = i + 1;
                proof {
                    let (rs1, rest1) = sections_spec(q.skip(9 + size_spec), c - 1);
                    assert(sections_spec(q, c) == (seq![(q[0], le_u32_at(q, 1), q.subrange(9, 9 + size_spec))] + rs1, rest1));
                    assert(result_view(result@) =~= result_view(r0) + seq![(q[0], le_u32_at(q, 1), q.subrange(9, 9 + size_spec))]);
                    assert(result_view(r0) + (seq![(q[0], le_u32_at(q, 1), q.subrange(9, 9 + size_spec))] + rs1) =~= result_view(result@) + rs1);
                }
            }
            proof {
                let (rs, rest) = sections_spec(data_queue@, sections - i);
                assert(rs =~= Seq::<(u8, u32, Seq<u8>)>::empty());
                assert(result_view(result@) + rs =~= result_view(result@));
            }
            SaveSections { declared: declared, sections: result, remaining: data_queue.len() }
        },
        None => SaveSections { declared: None, sections: result, remaining: data_queue.len() },
    }
}

/// The little-endian `u32` at `p` of `data`, which holds four bytes there.
fn u32_at(data: &Vec<u8>, p: usize) -> (v: u32)
    requires
        p + 4 <= data.len(),
    ensures
        v == le_u32_at(data@, p as int),
{
    let buf: [u8; 4] = [data[p], data[p + 1], data[p + 2], data[p + 3]];
    read_u32_le(&buf)
}

/// Whether `parse_save_sections` can read `data` without a section that
/// claims more bytes than are left (see `save_fits`).
pub fn save_fits_exec(data: &Vec<u8>) -> (ok: bool)
    ensures
        ok == save_fits(data@),
{
    let n = data.len();
    if n < 4 {
        return true;
    }
    let sections = u32_at(data, 0);
    let mut p: usize = 4;
    let mut i: u32 = 0;
    while i < sections && n - p >= 9
        invariant
            n == data@.len(),
            4 <= p <= n,
            i <= sections,
            save_fits(data@) == sections_fit(data@.skip(p as int), sections - i),
        decreases sections - i,
    {
        let ghost rest = data@.skip(p as int);
        let size = u32_at(data, p + 5) as usize;
        assert(le_u32_at(rest, 5) == le_u32_at(data@, p + 5));
        if size > n - p - 9 {
            return false;
        }
        assert(rest.skip(9 + size) =~= data@.skip(p + 9 + size));
        p = p + 9 + size;
        i = i + 1;
    }
    true
}

/// The (index, unknown, data) of each section.
pub open spec fn result_view(s: Seq<SaveSection>) -> Seq<(u8, u32, Seq<u8>)> {
    Seq::new(s.len(), |k: int| (s[k].index, s[k].unknown, s[k].data@))
}

} // verus!
