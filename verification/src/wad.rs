//! The archive container: header and directory parsing, lump loading,
//! and name/position lookups.

use vstd::prelude::*;
use vstd::bytes::*;
use vstd::utf8::decode_utf8_encode_utf8;
use vstd::utf8::encode_utf8;
use vstd::utf8::valid_utf8;

use crate::names::decode_name;
use crate::names::lemma_trim_zero_bytes_shape;
use crate::names::lemma_trim_zero_bytes_utf8;
use crate::names::lump_name;
use crate::names::trim_zero_bytes;

verus! {

/// Failure of archive loading.
#[derive(Clone, Copy, PartialEq, Eq, Structural, Debug)]
pub enum WadError {
    /// The first four bytes are neither `"IWAD"` nor `"PWAD"`.
    InvalidMagic,
    /// The stream ends before a read completes: a short header, a
    /// directory running past the end, or a lump span outside the data.
    TruncatedData,
    /// A directory record's name field is not valid UTF-8.
    InvalidName,
}

/// One named resource read out of the archive.
pub struct Lump {
    /// Name, decoded from the 8-byte directory field with trailing NUL
    /// padding stripped.
    pub name: String,
    /// The lump's contents, copied out of the source bytes.
    pub data: Vec<u8>,
    /// Byte offset of the contents in the source.
    pub pos: u64,
    /// Length in bytes of the contents.
    pub len: usize,
}

/// A loaded archive: the lumps in on-disk directory order.
pub struct Wad {
    /// The lumps, in the order the directory lists them.
    pub lumps: Vec<Lump>,
}

/// The source starts with one of the two accepted four-byte tags,
/// `"IWAD"` or `"PWAD"`.
pub open spec fn magic_ok(b: Seq<u8>) -> bool {
    &&& b.len() >= 4
    &&& (b[0] == 73u8 || b[0] == 80u8)  // 'I' or 'P'
    &&& b[1] == 87u8  // 'W'
    &&& b[2] == 65u8  // 'A'
    &&& b[3] == 68u8  // 'D'
}

/// The lump count read from the header.
pub open spec fn spec_lump_count(b: Seq<u8>) -> int {
    spec_u32_from_le_bytes(b.subrange(4, 8)) as int
}

/// The directory offset read from the header.
pub open spec fn spec_dir_offset(b: Seq<u8>) -> int {
    spec_u32_from_le_bytes(b.subrange(8, 12)) as int
}

/// Where the 16-byte directory record of lump `i` starts.
pub open spec fn rec_start(b: Seq<u8>, i: int) -> int {
    spec_dir_offset(b) + 16 * i
}

/// The directory record of lump `i` lies inside the source.
pub open spec fn rec_in_bounds(b: Seq<u8>, i: int) -> bool {
    rec_start(b, i) + 16 <= b.len()
}

/// The contents offset in the directory record of lump `i`.
pub open spec fn rec_pos(b: Seq<u8>, i: int) -> int {
    spec_u32_from_le_bytes(b.subrange(rec_start(b, i), rec_start(b, i) + 4)) as int
}

/// The contents length in the directory record of lump `i`.
pub open spec fn rec_len(b: Seq<u8>, i: int) -> int {
    spec_u32_from_le_bytes(b.subrange(rec_start(b, i) + 4, rec_start(b, i) + 8)) as int
}

/// The raw 8-byte name field in the directory record of lump `i`.
pub open spec fn rec_name_raw(b: Seq<u8>, i: int) -> Seq<u8> {
    b.subrange(rec_start(b, i) + 8, rec_start(b, i) + 16)
}

/// The name field of record `i` is valid UTF-8.
pub open spec fn rec_name_ok(b: Seq<u8>, i: int) -> bool {
    valid_utf8(rec_name_raw(b, i))
}

/// The contents span of lump `i` lies inside the source.
pub open spec fn lump_in_bounds(b: Seq<u8>, i: int) -> bool {
    rec_pos(b, i) + rec_len(b, i) <= b.len()
}

/// The contents bytes of lump `i`.
pub open spec fn lump_bytes(b: Seq<u8>, i: int) -> Seq<u8> {
    b.subrange(rec_pos(b, i), rec_pos(b, i) + rec_len(b, i))
}

/// A source parses as a whole archive: the header is complete and
/// tagged, and every directory record and every lump span lies inside
/// the source with a UTF-8 name.
pub open spec fn wad_ok(b: Seq<u8>) -> bool {
    &&& b.len() >= 12
    &&& magic_ok(b)
    &&& forall|i: int| 0 <= i < spec_lump_count(b) ==> #[trigger] rec_in_bounds(b, i)
    &&& forall|i: int| 0 <= i < spec_lump_count(b) ==> #[trigger] rec_name_ok(b, i)
    &&& forall|i: int| 0 <= i < spec_lump_count(b) ==> #[trigger] lump_in_bounds(b, i)
}

/// Record `i` is the first one whose name field fails UTF-8 decoding,
/// and the directory is intact at least that far.
pub open spec fn name_error_at(b: Seq<u8>, i: int) -> bool {
    &&& 0 <= i < spec_lump_count(b)
    &&& rec_in_bounds(b, i)
    &&& !rec_name_ok(b, i)
    &&& forall|j: int| 0 <= j < i ==> #[trigger] rec_name_ok(b, j)
}

/// Loading fails on an invalid name rather than on a short read.
pub open spec fn has_name_error(b: Seq<u8>) -> bool {
    exists|i: int| #[trigger] name_error_at(b, i)
}

/// The error a failed load reports, following the order in which the
/// loader consumes the source: header reads, then the directory records
/// in order (bounds before name on each), then the lump spans.
pub open spec fn load_error(b: Seq<u8>) -> WadError {
    if b.len() < 4 {
        WadError::TruncatedData
    } else if !magic_ok(b) {
        WadError::InvalidMagic
    } else if b.len() < 12 {
        WadError::TruncatedData
    } else if has_name_error(b) {
        WadError::InvalidName
    } else {
        WadError::TruncatedData
    }
}

/// Lump `i` of a loaded archive carries exactly what record `i` of the
/// source directory describes.
pub open spec fn lump_matches(l: Lump, b: Seq<u8>, i: int) -> bool {
    &&& l.pos == rec_pos(b, i)
    &&& l.len == rec_len(b, i)
    &&& l.name@ == lump_name(rec_name_raw(b, i))
    &&& l.data@ == lump_bytes(b, i)
}

/// A loaded archive reproduces the source directory lump for lump.
pub open spec fn wad_matches(w: Wad, b: Seq<u8>) -> bool {
    &&& w.lumps@.len() == spec_lump_count(b)
    &&& forall|i: int|
        0 <= i < w.lumps@.len() ==> lump_matches(#[trigger] w.lumps@[i], b, i)
}

impl Wad {
    /// Parse a whole archive out of an in-memory source. All-or-nothing:
    /// either every lump is materialized, or the first failure in read
    /// order is reported and nothing is returned.
    pub fn load(bytes: &[u8]) -> (r: Result<Wad, WadError>)
        ensures
            r is Ok <==> wad_ok(bytes@),
            r matches Ok(w) ==> wad_matches(w, bytes@),
            r matches Err(e) ==> e == load_error(bytes@),
    {
        let total = bytes.len();
        if total < 4 {
            return Err(WadError::TruncatedData);
        }
        if !((bytes[0] == 73u8 || bytes[0] == 80u8) && bytes[1] == 87u8 && bytes[2] == 65u8
            && bytes[3] == 68u8) {
            return Err(WadError::InvalidMagic);
        }
        if total < 12 {
            return Err(WadError::TruncatedData);
        }
        let n = u32_from_le_bytes(vstd::slice::slice_subrange(bytes, 4, 8)) as usize;
        let dir = u32_from_le_bytes(vstd::slice::slice_subrange(bytes, 8, 12)) as usize;
        proof {
            assert(n == spec_lump_count(bytes@));
            assert(dir == spec_dir_offset(bytes@));
        }

        // First pass: the directory records, in order.
        let mut lumps: Vec<Lump> = Vec::new();
        let mut off: usize = dir;
        for i in 0..n
            invariant
                total == bytes@.len(),
                n == spec_lump_count(bytes@),
                dir == spec_dir_offset(bytes@),
                magic_ok(bytes@),
                total >= 12,
                off == rec_start(bytes@, i as int),
                lumps@.len() == i,
                forall|j: int| 0 <= j < i ==> #[trigger] rec_in_bounds(bytes@, j),
                forall|j: int| 0 <= j < i ==> #[trigger] rec_name_ok(bytes@, j),
                forall|j: int|
                    0 <= j < i ==> {
                        let l = #[trigger] lumps@[j];
                        &&& l.pos == rec_pos(bytes@, j)
                        &&& l.len == rec_len(bytes@, j)
                        &&& l.name@ == lump_name(rec_name_raw(bytes@, j))
                    },
        {
            if off > total || total - off < 16 {
                proof {
                    assert(!rec_in_bounds(bytes@, i as int));
                    assert(!wad_ok(bytes@));
                    assert forall|k: int| !name_error_at(bytes@, k) by {
                        if 0 <= k < i {
                            assert(rec_name_ok(bytes@, k));
                        }
                        if i <= k {
                            assert(!rec_in_bounds(bytes@, k));
                        }
                    }
                }
                return Err(WadError::TruncatedData);
            }
            let pos = u32_from_le_bytes(vstd::slice::slice_subrange(bytes, off, off + 4));
            let len = u32_from_le_bytes(vstd::slice::slice_subrange(bytes, off + 4, off + 8));
            let raw = vstd::slice::slice_subrange(bytes, off + 8, off + 16);
            proof {
                assert(raw@ == rec_name_raw(bytes@, i as int));
                assert(pos == rec_pos(bytes@, i as int));
                assert(len == rec_len(bytes@, i as int));
            }
            let name = match decode_name(raw) {
                Some(s) => s,
                None => {
                    proof {
                        assert(name_error_at(bytes@, i as int));
                        assert(has_name_error(bytes@));
                        assert(!rec_name_ok(bytes@, i as int));
                        assert(!wad_ok(bytes@));
                    }
                    return Err(WadError::InvalidName);
                },
            };
            lumps.push(Lump { name, data: Vec::new(), pos: pos as u64, len: len as usize });
            off = off + 16;
        }

        proof {
            assert forall|k: int| !name_error_at(bytes@, k) by {
                if 0 <= k < n {
                    assert(rec_name_ok(bytes@, k));
                }
            }
        }

        // Second pass: materialize every lump's contents.
        let mut out: Vec<Lump> = Vec::new();
        for i in 0..n
            invariant
                total == bytes@.len(),
                n == spec_lump_count(bytes@),
                magic_ok(bytes@),
                total >= 12,
                !has_name_error(bytes@),
                lumps@.len() == n,
                out@.len() == i,
                forall|j: int| 0 <= j < n ==> #[trigger] rec_in_bounds(bytes@, j),
                forall|j: int| 0 <= j < n ==> #[trigger] rec_name_ok(bytes@, j),
                forall|j: int| 0 <= j < i ==> #[trigger] lump_in_bounds(bytes@, j),
                forall|j: int|
                    0 <= j < n ==> {
                        let l = #[trigger] lumps@[j];
                        &&& l.pos == rec_pos(bytes@, j)
                        &&& l.len == rec_len(bytes@, j)
                        &&& l.name@ == lump_name(rec_name_raw(bytes@, j))
                    },
                forall|j: int| 0 <= j < i ==> lump_matches(#[trigger] out@[j], bytes@, j),
        {
            let pos64 = lumps[i].pos;
            let len_i = lumps[i].len;
            if pos64 > total as u64 || total - (pos64 as usize) < len_i {
                proof {
                    assert(!lump_in_bounds(bytes@, i as int));
                    assert(!wad_ok(bytes@));
                }
                return Err(WadError::TruncatedData);
            }
            let pos = pos64 as usize;
            let data = vstd::slice::slice_to_vec(
                vstd::slice::slice_subrange(bytes, pos, pos + len_i),
            );
            let name = lumps[i].name.clone();
            proof {
                assert(data@ == lump_bytes(bytes@, i as int));
            }
            out.push(Lump { name, data, pos: pos64, len: len_i });
        }
        Ok(Wad { lumps: out })
    }
}

/// The lowest position whose lump carries `name`, scanning forward.
pub open spec fn spec_first_match(lumps: Seq<Lump>, name: Seq<char>) -> Option<int>
    decreases lumps.len(),
{
    if lumps.len() == 0 {
        None
    } else if lumps[0].name@ == name {
        Some(0)
    } else {
        match spec_first_match(lumps.drop_first(), name) {
            Some(i) => Some(i + 1),
            None => None,
        }
    }
}

/// The highest position whose lump carries `name`, scanning backward.
pub open spec fn spec_last_match(lumps: Seq<Lump>, name: Seq<char>) -> Option<int>
    decreases lumps.len(),
{
    if lumps.len() == 0 {
        None
    } else if lumps.last().name@ == name {
        Some(lumps.len() - 1)
    } else {
        spec_last_match(lumps.drop_last(), name)
    }
}

/// Law: a forward lookup lands on the lowest position carrying the
/// name; when it finds nothing, no position carries the name.
pub proof fn lemma_first_match_lowest(lumps: Seq<Lump>, name: Seq<char>)
    ensures
        match spec_first_match(lumps, name) {
            Some(i) => {
                &&& 0 <= i < lumps.len()
                &&& lumps[i].name@ == name
                &&& forall|j: int| 0 <= j < i ==> lumps[j].name@ != name
            },
            None => forall|j: int| 0 <= j < lumps.len() ==> lumps[j].name@ != name,
        },
    decreases lumps.len(),
{
    if lumps.len() > 0 && lumps[0].name@ != name {
        lemma_first_match_lowest(lumps.drop_first(), name);
        assert forall|j: int| 1 <= j < lumps.len() implies lumps[j] == lumps.drop_first()[j - 1]
        by {}
    }
}

/// Law: a backward lookup lands on the highest position carrying the
/// name; when it finds nothing, no position carries the name.
pub proof fn lemma_last_match_highest(lumps: Seq<Lump>, name: Seq<char>)
    ensures
        match spec_last_match(lumps, name) {
            Some(i) => {
                &&& 0 <= i < lumps.len()
                &&& lumps[i].name@ == name
                &&& forall|j: int| i < j < lumps.len() ==> lumps[j].name@ != name
            },
            None => forall|j: int| 0 <= j < lumps.len() ==> lumps[j].name@ != name,
        },
    decreases lumps.len(),
{
    if lumps.len() > 0 && lumps.last().name@ != name {
        lemma_last_match_highest(lumps.drop_last(), name);
        assert forall|j: int| 0 <= j < lumps.len() - 1 implies lumps[j] == lumps.drop_last()[j]
        by {}
    }
}

impl Wad {
    /// Position of the first lump with this name, in archive order:
    /// the base for forward offset arithmetic over contiguous ranges.
    pub fn get_num_for_name(&self, name: &str) -> (r: Option<usize>)
        ensures
            match r {
                Some(i) => spec_first_match(self.lumps@, name@) == Some(i as int),
                None => spec_first_match(self.lumps@, name@) is None,
            },
    {
        let key: String = name.to_owned();
        let count = self.lumps.len();
        for i in 0..count
            invariant
                count == self.lumps@.len(),
                key@ == name@,
                forall|j: int| 0 <= j < i ==> self.lumps@[j].name@ != name@,
        {
            if self.lumps[i].name == key {
                proof {
                    lemma_first_match_lowest(self.lumps@, name@);
                }
                return Some(i);
            }
        }
        proof {
            lemma_first_match_lowest(self.lumps@, name@);
        }
        None
    }

    /// Contents of the lump at a position, bounds-checked.
    pub fn cache_lump_num(&self, num: usize) -> (r: Option<&[u8]>)
        ensures
            r is Some <==> num < self.lumps@.len(),
            r matches Some(d) ==> d@ == self.lumps@[num as int].data@,
    {
        if num < self.lumps.len() {
            Some(self.lumps[num].data.as_slice())
        } else {
            None
        }
    }

    /// Contents of the last lump with this name, scanning in reverse
    /// archive order: a lump loaded later shadows an earlier one of the
    /// same name without removing it.
    pub fn cache_lump_name(&self, name: &str) -> (r: Option<&[u8]>)
        ensures
            match r {
                Some(d) => {
                    &&& spec_last_match(self.lumps@, name@) matches Some(i)
                    &&& d@ == self.lumps@[spec_last_match(self.lumps@, name@)->Some_0].data@
                },
                None => spec_last_match(self.lumps@, name@) is None,
            },
    {
        let key: String = name.to_owned();
        let mut i = self.lumps.len();
        while i > 0
            invariant
                i <= self.lumps@.len(),
                key@ == name@,
                forall|j: int| i <= j < self.lumps@.len() ==> self.lumps@[j].name@ != name@,
            decreases i,
        {
            i = i - 1;
            if self.lumps[i].name == key {
                proof {
                    lemma_last_match_highest(self.lumps@, name@);
                }
                return Some(self.lumps[i].data.as_slice());
            }
        }
        proof {
            lemma_last_match_highest(self.lumps@, name@);
        }
        None
    }

    /// Write the directory back out: one 16-byte record per lump, in
    /// order, each holding the offset, the length and the NUL-padded
    /// name, exactly as the on-disk format lays them out.
    pub fn serialize_directory(&self) -> (r: Vec<u8>)
        requires
            forall|i: int|
                0 <= i < self.lumps@.len() ==> (#[trigger] self.lumps@[i]).pos <= u32::MAX,
            forall|i: int|
                0 <= i < self.lumps@.len() ==> (#[trigger] self.lumps@[i]).len <= u32::MAX,
            forall|i: int|
                0 <= i < self.lumps@.len() ==> encode_utf8(
                    (#[trigger] self.lumps@[i]).name@,
                ).len() <= 8,
        ensures
            r@ == spec_serialize_directory(self.lumps@),
    {
        let count = self.lumps.len();
        let mut out: Vec<u8> = Vec::new();
        for i in 0..count
            invariant
                count == self.lumps@.len(),
                forall|j: int|
                    0 <= j < count ==> (#[trigger] self.lumps@[j]).pos <= u32::MAX,
                forall|j: int|
                    0 <= j < count ==> (#[trigger] self.lumps@[j]).len <= u32::MAX,
                forall|j: int|
                    0 <= j < count ==> encode_utf8((#[trigger] self.lumps@[j]).name@).len() <= 8,
                out@ == spec_serialize_directory(self.lumps@.take(i as int)),
        {
            let ghost before = out@;
            let mut pos_bytes = u32_to_le_bytes(self.lumps[i].pos as u32);
            out.append(&mut pos_bytes);
            let mut len_bytes = u32_to_le_bytes(self.lumps[i].len as u32);
            out.append(&mut len_bytes);
            let nb = self.lumps[i].name.as_str().as_bytes();
            let name_len = nb.len();
            for k in 0..name_len
                invariant
                    name_len == nb@.len(),
                    out@ == before + spec_u32_to_le_bytes(self.lumps@[i as int].pos as u32)
                        + spec_u32_to_le_bytes(self.lumps@[i as int].len as u32)
                        + nb@.take(k as int),
                    i < count,
                    count == self.lumps@.len(),
            {
                out.push(nb[k]);
                proof {
                    assert(nb@.take(k + 1) =~= nb@.take(k as int).push(nb@[k as int]));
                }
            }
            let mut pad = name_len;
            while pad < 8
                invariant
                    name_len <= pad <= 8,
                    name_len == nb@.len(),
                    out@ == before + spec_u32_to_le_bytes(self.lumps@[i as int].pos as u32)
                        + spec_u32_to_le_bytes(self.lumps@[i as int].len as u32) + nb@ + Seq::new(
                        (pad - name_len) as nat,
                        |k: int| 0u8,
                    ),
                    i < count,
                    count == self.lumps@.len(),
                decreases 8 - pad,
            {
                out.push(0u8);
                pad = pad + 1;
                proof {
                    assert(Seq::new((pad - name_len) as nat, |k: int| 0u8) =~= Seq::new(
                        (pad - 1 - name_len) as nat,
                        |k: int| 0u8,
                    ).push(0u8));
                }
            }
            proof {
                assert(nb@.take(name_len as int) =~= nb@);
                let l = self.lumps@[i as int];
                assert(nb@ == encode_utf8(l.name@));
                assert(out@ =~= before + spec_dir_record(l));
                assert(self.lumps@.take(i + 1).drop_last() =~= self.lumps@.take(i as int));
                assert(self.lumps@.take(i + 1).last() == l);
            }
        }
        proof {
            assert(self.lumps@.take(count as int) =~= self.lumps@);
        }
        out
    }
}

/// The on-disk name field for a lump name: its UTF-8 encoding padded
/// with NUL bytes to 8 bytes.
pub open spec fn name_field(name: Seq<char>) -> Seq<u8> {
    let e = encode_utf8(name);
    if e.len() <= 8 {
        e + Seq::new((8 - e.len()) as nat, |k: int| 0u8)
    } else {
        e
    }
}

/// The 16-byte directory record a lump serializes to.
pub open spec fn spec_dir_record(l: Lump) -> Seq<u8> {
    spec_u32_to_le_bytes(l.pos as u32) + spec_u32_to_le_bytes(l.len as u32) + name_field(l.name@)
}

/// The serialized directory: every lump's record, in archive order.
pub open spec fn spec_serialize_directory(lumps: Seq<Lump>) -> Seq<u8>
    decreases lumps.len(),
{
    if lumps.len() == 0 {
        Seq::empty()
    } else {
        spec_serialize_directory(lumps.drop_last()) + spec_dir_record(lumps.last())
    }
}

/// A lump read from record `i` serializes back to exactly the bytes of
/// record `i`.
proof fn lemma_record_round_trip(l: Lump, b: Seq<u8>, i: int)
    requires
        wad_ok(b),
        0 <= i < spec_lump_count(b),
        lump_matches(l, b, i),
    ensures
        spec_dir_record(l) == b.subrange(rec_start(b, i), rec_start(b, i) + 16),
        encode_utf8(l.name@) == trim_zero_bytes(rec_name_raw(b, i)),
{
    let start = rec_start(b, i);
    let raw = rec_name_raw(b, i);
    assert(rec_in_bounds(b, i));
    assert(rec_name_ok(b, i));
    lemma_trim_zero_bytes_utf8(raw);
    decode_utf8_encode_utf8(trim_zero_bytes(raw));
    assert(encode_utf8(l.name@) == trim_zero_bytes(raw));
    lemma_trim_zero_bytes_shape(raw);
    assert(name_field(l.name@) =~= raw);
    lemma_auto_spec_u32_to_from_le_bytes();
    assert(b.subrange(start, start + 4).len() == 4);
    assert(spec_u32_to_le_bytes(l.pos as u32) == b.subrange(start, start + 4));
    assert(spec_u32_to_le_bytes(l.len as u32) == b.subrange(start + 4, start + 8));
    assert(spec_dir_record(l) =~= b.subrange(start, start + 16));
}

/// The byte region the source's directory occupies.
pub open spec fn spec_directory_bytes(b: Seq<u8>) -> Seq<u8> {
    if spec_lump_count(b) == 0 {
        Seq::empty()
    } else {
        b.subrange(spec_dir_offset(b), spec_dir_offset(b) + 16 * spec_lump_count(b))
    }
}

proof fn lemma_directory_round_trip_prefix(w: Wad, b: Seq<u8>, k: int)
    requires
        wad_ok(b),
        wad_matches(w, b),
        0 <= k <= spec_lump_count(b),
    ensures
        spec_serialize_directory(w.lumps@.take(k)) == (if k == 0 {
            Seq::<u8>::empty()
        } else {
            b.subrange(spec_dir_offset(b), spec_dir_offset(b) + 16 * k)
        }),
    decreases k,
{
    let d = spec_dir_offset(b);
    if k == 0 {
        assert(w.lumps@.take(0) =~= Seq::<Lump>::empty());
    } else {
        lemma_directory_round_trip_prefix(w, b, k - 1);
        let l = w.lumps@[k - 1];
        assert(lump_matches(l, b, k - 1));
        lemma_record_round_trip(l, b, k - 1);
        assert(w.lumps@.take(k).drop_last() =~= w.lumps@.take(k - 1));
        assert(w.lumps@.take(k).last() == l);
        assert(rec_in_bounds(b, k - 1));
        if k == 1 {
            assert(spec_serialize_directory(w.lumps@.take(0)) =~= Seq::<u8>::empty());
            assert(Seq::<u8>::empty() + b.subrange(d, d + 16) =~= b.subrange(d, d + 16));
        } else {
            assert(b.subrange(d, d + 16 * (k - 1)) + b.subrange(d + 16 * (k - 1), d + 16 * k)
                =~= b.subrange(d, d + 16 * k));
        }
    }
}

/// Law: after a successful load, serializing the directory back
/// reproduces the source's directory bytes — position, length and name
/// of every lump, in the original order.
pub proof fn lemma_directory_round_trip(w: Wad, b: Seq<u8>)
    requires
        wad_ok(b),
        wad_matches(w, b),
    ensures
        spec_serialize_directory(w.lumps@) == spec_directory_bytes(b),
        forall|i: int|
            0 <= i < w.lumps@.len() ==> encode_utf8((#[trigger] w.lumps@[i]).name@).len() <= 8,
{
    lemma_directory_round_trip_prefix(w, b, spec_lump_count(b));
    assert(w.lumps@.take(spec_lump_count(b)) =~= w.lumps@);
    assert forall|i: int|
        0 <= i < w.lumps@.len() implies encode_utf8((#[trigger] w.lumps@[i]).name@).len() <= 8 by {
        assert(lump_matches(w.lumps@[i], b, i));
        assert(rec_in_bounds(b, i));
        lemma_record_round_trip(w.lumps@[i], b, i);
        lemma_trim_zero_bytes_shape(rec_name_raw(b, i));
        assert(rec_name_raw(b, i).len() == 8);
    }
}

} // verus!
