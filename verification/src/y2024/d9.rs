//! Disk Fragmenter: compacting a dense disk map, then its checksum.

use vstd::prelude::*;
use vstd::pervasive::VecAdditionalExecFns;
use crate::parser::Parser;
use crate::text::{cap_u64, digit_val, digit_value, is_digit, is_digit_char, mul_sat_u64, u64_to_string};

verus! {

/// A stretch of the disk map: a file of a given size, or free space.
#[derive(Clone)]
pub enum DiskPart {
    File { id: u64, size: u64 },
    FreeSpace { free: u64 },
}

impl DiskPart {
    /// A file stretch.
    pub fn new_file(id: u64, size: u64) -> (r: Self)
        ensures
            r == (DiskPart::File { id, size }),
    {
        Self::File { id, size }
    }

    /// A free stretch.
    pub fn new_free_space(free: u64) -> (r: Self)
        ensures
            r == (DiskPart::FreeSpace { free }),
    {
        Self::FreeSpace { free }
    }
}

/// The disk map expanded block by block from `s` on, with `file` the next
/// file id and `add_file` whether the next digit opens a file stretch: a
/// file block carries its file id, a free block carries `-1`, and any
/// character that is no digit is passed over.
pub open spec fn expand_from(s: Seq<char>, file: i64, add_file: bool) -> Seq<i64>
    decreases s.len(),
{
    if s.len() == 0 {
        Seq::empty()
    } else if is_digit_char(s[0]) {
        let size = digit_val(s[0]);
        let block: i64 = if add_file {
            file
        } else {
            -1i64
        };
        let next: i64 = if add_file && file < i64::MAX {
            (file + 1) as i64
        } else {
            file
        };
        Seq::new(size as nat, |t: int| block) + expand_from(s.drop_first(), next, !add_file)
    } else {
        expand_from(s.drop_first(), file, add_file)
    }
}

/// The expanded disk after block compaction, with `i` scanning for free
/// blocks from the left and `j` for file blocks from the right: each
/// rightmost file block swaps into the leftmost free block until the two
/// scans meet.
pub open spec fn compact_blocks(disk: Seq<i64>, i: int, j: int) -> Seq<i64>
    decreases j - i + 1,
    when 0 <= i && j < disk.len()
{
    if i >= j {
        disk
    } else if disk[i] != -1 {
        compact_blocks(disk, i + 1, j)
    } else if disk[j] == -1 {
        compact_blocks(disk, i, j - 1)
    } else {
        compact_blocks(disk.update(i, disk[j]).update(j, disk[i]), i + 1, j - 1)
    }
}

/// The expanded disk block-compacted from end to end; an empty disk stays
/// empty.
pub open spec fn compacted(disk: Seq<i64>) -> Seq<i64> {
    if disk.len() == 0 {
        disk
    } else {
        compact_blocks(disk, 0, disk.len() - 1)
    }
}

/// Saturating checksum of an expanded disk: over the blocks in order, each
/// file block adds its position times its file id, the product and the
/// running sum each held to the unsigned 64-bit range.
pub open spec fn block_checksum(disk: Seq<i64>) -> int
    decreases disk.len(),
{
    if disk.len() == 0 {
        0
    } else {
        let prev = block_checksum(disk.drop_last());
        let k = disk.len() - 1;
        let v = disk.last();
        if v >= 0 {
            cap_u64(prev + cap_u64(k * v))
        } else {
            prev
        }
    }
}

/// A block checksum stays in the unsigned 64-bit range.
proof fn lemma_block_checksum_bounds(disk: Seq<i64>)
    ensures
        0 <= block_checksum(disk) <= u64::MAX,
    decreases disk.len(),
{
    if disk.len() > 0 {
        lemma_block_checksum_bounds(disk.drop_last());
        let k = disk.len() - 1;
        let v = disk.last();
        if v >= 0 {
            assert(k * v >= 0) by (nonlinear_arith)
                requires
                    k >= 0 && v >= 0,
            ;
        }
    }
}

/// The checksum of the block-compacted disk read out of the dense map.
pub open spec fn part1_value(input: Seq<char>) -> int {
    block_checksum(compacted(expand_from(input, 0, true)))
}

/// Checksum after compacting the disk block by block: each rightmost file
/// block moves into the leftmost free block.
pub fn part1(input: String) -> (r: String)
    ensures
        r@ == crate::text::dec_string(part1_value(input@)),
{
    let ghost disk0 = expand_from(input@, 0, true);
    let mut disk = parse_input(input);
    if disk.len() == 0 {
        proof {
            assert(compacted(disk0) =~= disk0);
        }
        return u64_to_string(0);
    }
    let ghost n0 = disk@.len();
    let mut i: usize = 0;
    let mut j: usize = disk.len() - 1;
    while i < j
        invariant
            j < disk@.len(),
            disk@.len() == n0,
            compact_blocks(disk0, 0, n0 - 1) == compact_blocks(disk@, i as int, j as int),
        decreases
            (if i <= j {
                j - i
            } else {
                0int
            }),
    {
        if disk[i] != -1 {
            i = i + 1;
        } else if disk[j] == -1 {
            j = j - 1;
        } else {
            let a = disk[i];
            let b = disk[j];
            let ghost before = disk@;
            disk.set(i, b);
            disk.set(j, a);
            proof {
                assert(disk@ == before.update(i as int, before[j as int]).update(
                    j as int,
                    before[i as int],
                ));
            }
            i = i + 1;
            if j > 0 {
                j = j - 1;
            }
        }
    }
    proof {
        assert(compact_blocks(disk@, i as int, j as int) == disk@);
        assert(disk@ == compacted(disk0));
    }
    let mut sum: u64 = 0;
    let mut k: usize = 0;
    while k < disk.len()
        invariant
            k <= disk@.len(),
            disk@ == compacted(disk0),
            sum as int == block_checksum(disk@.take(k as int)),
        decreases disk@.len() - k,
    {
        let v = disk[k];
        proof {
            lemma_block_checksum_bounds(disk@.take(k as int));
            assert(disk@.take(k + 1).drop_last() =~= disk@.take(k as int));
            assert(disk@.take(k + 1).last() == disk@[k as int]);
            assert(k as int * v >= 0 || v < 0) by (nonlinear_arith)
                requires
                    k >= 0,
            ;
        }
        if v != -1 && v >= 0 {
            sum = sum.saturating_add(mul_sat_u64(k as u64, v as u64));
        }
        k = k + 1;
    }
    proof {
        assert(disk@.take(disk@.len() as int) =~= disk@);
    }
    u64_to_string(sum)
}

/// The stretches after one pass of whole-file compaction with the moving
/// scan fixed at `j`: each free stretch at `i < j` that fits the stretch
/// at `j` takes that file, what it leaves at `j` becomes free space of the
/// file's size, and any slack is inserted after `i` as a new free stretch.
pub open spec fn compact_files_pass(disk: Seq<DiskPart>, i: int, j: int) -> Seq<DiskPart>
    decreases j - i,
    when 0 <= i && 0 <= j < disk.len()
{
    if i >= j {
        disk
    } else {
        match (disk[i], disk[j]) {
            (DiskPart::FreeSpace { free }, DiskPart::File { id, size }) => {
                if free >= size {
                    let moved = disk.update(i, DiskPart::File { id, size }).update(
                        j,
                        DiskPart::FreeSpace { free: size },
                    );
                    let next = if free > size {
                        moved.insert(i + 1, DiskPart::FreeSpace { free: (free - size) as u64 })
                    } else {
                        moved
                    };
                    compact_files_pass(next, i + 1, j)
                } else {
                    compact_files_pass(disk, i + 1, j)
                }
            },
            _ => compact_files_pass(disk, i + 1, j),
        }
    }
}

/// The stretches after whole-file compaction passes at `j - 1` down to
/// `0`, each pass run on what the previous passes left.
pub open spec fn compact_files_rounds(disk: Seq<DiskPart>, j: int) -> Seq<DiskPart>
    decreases j,
    when j <= disk.len()
{
    if j <= 0 {
        disk
    } else {
        compact_files_rounds(compact_files_pass(disk, 0, j - 1), j - 1)
    }
}

/// A compaction pass never shortens the stretch list.
proof fn lemma_compact_files_pass_len(disk: Seq<DiskPart>, i: int, j: int)
    requires
        0 <= i,
        0 <= j < disk.len(),
    ensures
        compact_files_pass(disk, i, j).len() >= disk.len(),
    decreases j - i,
{
    if i < j {
        match (disk[i], disk[j]) {
            (DiskPart::FreeSpace { free }, DiskPart::File { id, size }) => {
                if free >= size {
                    let moved = disk.update(i, DiskPart::File { id, size }).update(
                        j,
                        DiskPart::FreeSpace { free: size },
                    );
                    let next = if free > size {
                        moved.insert(i + 1, DiskPart::FreeSpace { free: (free - size) as u64 })
                    } else {
                        moved
                    };
                    lemma_compact_files_pass_len(next, i + 1, j);
                } else {
                    lemma_compact_files_pass_len(disk, i + 1, j);
                }
            },
            _ => {
                lemma_compact_files_pass_len(disk, i + 1, j);
            },
        }
    }
}

/// The checksum state `(position, sum)` after one file stretch: `b` blocks
/// of file `id` from saturating position `pos` on, each adding its
/// position times the id, products, positions and sums each held to the
/// unsigned 64-bit range.
pub open spec fn file_fold(id: int, b: nat, pos: int, sum: int) -> (int, int)
    decreases b,
{
    if b == 0 {
        (pos, sum)
    } else {
        file_fold(id, (b - 1) as nat, cap_u64(pos + 1), cap_u64(sum + cap_u64(pos * id)))
    }
}

/// Saturating checksum of the stretches from `k` on: file stretches add
/// block by block, free stretches only advance the position.
pub open spec fn parts_checksum_from(disk: Seq<DiskPart>, k: int, pos: int, sum: int) -> int
    decreases disk.len() - k,
    when 0 <= k <= disk.len()
{
    if k >= disk.len() {
        sum
    } else {
        match disk[k] {
            DiskPart::File { id, size } => {
                let st = file_fold(id as int, size as nat, pos, sum);
                parts_checksum_from(disk, k + 1, st.0, st.1)
            },
            DiskPart::FreeSpace { free } => {
                parts_checksum_from(disk, k + 1, cap_u64(pos + free), sum)
            },
        }
    }
}

/// The disk map as stretches, read out of the dense map from `s` on:
/// alternating file and free-space entries, any character that is no
/// digit passed over.
pub open spec fn expand_parts_from(s: Seq<char>, id: u64, add_file: bool) -> Seq<DiskPart>
    decreases s.len(),
{
    if s.len() == 0 {
        Seq::empty()
    } else if is_digit_char(s[0]) {
        let size = digit_val(s[0]) as u64;
        if add_file {
            let next: u64 = if id < u64::MAX {
                (id + 1) as u64
            } else {
                id
            };
            seq![DiskPart::File { id, size }] + expand_parts_from(s.drop_first(), next, false)
        } else {
            seq![DiskPart::FreeSpace { free: size }] + expand_parts_from(s.drop_first(), id, true)
        }
    } else {
        expand_parts_from(s.drop_first(), id, add_file)
    }
}

/// The checksum of the whole-file-compacted stretches read out of the
/// dense map.
pub open spec fn part2_value(input: Seq<char>) -> int {
    let disk = expand_parts_from(input, 0, true);
    parts_checksum_from(compact_files_rounds(disk, disk.len() as int), 0, 0, 0)
}

/// Checksum after compacting whole files: each file, from the highest id
/// down, moves into the leftmost free stretch that fits it.
pub fn part2(input: String) -> (r: String)
    ensures
        r@ == crate::text::dec_string(part2_value(input@)),
{
    let ghost disk0 = expand_parts_from(input@, 0, true);
    let mut disk = parse_input2(input);
    let ghost n0 = disk@.len();
    let mut j: usize = disk.len();
    while j > 0
        invariant
            j <= disk@.len(),
            compact_files_rounds(disk0, n0 as int) == compact_files_rounds(disk@, j as int),
        decreases j,
    {
        let ghost j_enter = j as int;
        let ghost disk_enter = disk@;
        j = j - 1;
        let mut i: usize = 0;
        while i < j
            invariant
                j < disk@.len(),
                j == j_enter - 1,
                i <= j,
                compact_files_pass(disk_enter, 0, j as int) == compact_files_pass(
                    disk@,
                    i as int,
                    j as int,
                ),
            decreases j - i,
        {
            let ghost before = disk@;
            let movable = match (&disk[i], &disk[j]) {
                (DiskPart::FreeSpace { free }, DiskPart::File { id, size }) => {
                    if *free >= *size {
                        Some((*id, *size, *free))
                    } else {
                        None
                    }
                },
                _ => None,
            };
            match movable {
                Option::Some((id, size, free)) => {
                    disk.set(i, DiskPart::File { id, size });
                    disk.set(j, DiskPart::FreeSpace { free: size });
                    proof {
                        assert(disk@ == before.update(i as int, DiskPart::File { id, size }).update(
                            j as int,
                            DiskPart::FreeSpace { free: size },
                        ));
                    }
                    if free > size {
                        disk.insert(i + 1, DiskPart::FreeSpace { free: free - size });
                    }
                },
                Option::None => {},
            }
            i = i + 1;
        }
        proof {
            assert(compact_files_pass(disk@, i as int, j as int) == disk@);
            assert(compact_files_rounds(disk_enter, j_enter) == compact_files_rounds(
                compact_files_pass(disk_enter, 0, j_enter - 1),
                j_enter - 1,
            ));
        }
    }
    proof {
        assert(compact_files_rounds(disk@, 0) == disk@);
        assert(disk@ == compact_files_rounds(disk0, n0 as int));
    }
    let ghost compacted_parts = disk@;
    let mut sum: u64 = 0;
    let mut pos: u64 = 0;
    let mut k: usize = 0;
    while k < disk.len()
        invariant
            k <= disk@.len(),
            disk@ == compacted_parts,
            parts_checksum_from(disk@, k as int, pos as int, sum as int) == parts_checksum_from(
                disk@,
                0,
                0,
                0,
            ),
        decreases disk@.len() - k,
    {
        let (idv, sz, is_file) = match &disk[k] {
            DiskPart::File { id, size } => (*id, *size, true),
            DiskPart::FreeSpace { free } => (0u64, *free, false),
        };
        if is_file {
            let ghost pos0 = pos as int;
            let ghost sum0 = sum as int;
            let mut b: u64 = 0;
            while b < sz
                invariant
                    b <= sz,
                    0 <= pos as int <= u64::MAX,
                    0 <= sum as int <= u64::MAX,
                    file_fold(idv as int, (sz - b) as nat, pos as int, sum as int) == file_fold(
                        idv as int,
                        sz as nat,
                        pos0,
                        sum0,
                    ),
                decreases sz - b,
            {
                proof {
                    assert(pos as int * idv as int >= 0) by (nonlinear_arith)
                        requires
                            pos as int >= 0 && idv as int >= 0,
                    ;
                }
                sum = sum.saturating_add(mul_sat_u64(pos, idv));
                pos = pos.saturating_add(1);
                b = b + 1;
            }
        } else {
            pos = pos.saturating_add(sz);
        }
        k = k + 1;
    }
    u64_to_string(sum)
}

/// The disk map expanded block by block: a file block carries its file id,
/// a free block carries `-1`.
fn parse_input(input: String) -> (result: Vec<i64>)
    ensures
        result@ == expand_from(input@, 0, true),
{
    let ghost text = input@;
    let mut parser = Parser::new(input.as_str());
    let mut file: i64 = 0;
    let mut add_file = true;
    let mut result: Vec<i64> = Vec::new();
    proof {
        assert(text.skip(0) =~= text);
        assert(result@ + expand_from(text, 0, true) =~= expand_from(text, 0, true));
    }
    loop
        invariant
            parser.wf(),
            parser.text() == text,
            expand_from(text, 0, true) == result@ + expand_from(
                text.skip(parser.at()),
                file,
                add_file,
            ),
        ensures
            expand_from(text, 0, true) == result@,
        decreases parser.text().len() - parser.at(),
    {
        let ghost at0 = parser.at();
        let c = match parser.pop() {
            Option::Some(c) => c,
            Option::None => {
                proof {
                    assert(text.skip(at0).len() == 0);
                    assert(result@ + expand_from(text.skip(at0), file, add_file) =~= result@);
                }
                break;
            },
        };
        proof {
            assert(text.skip(at0)[0] == c);
            assert(text.skip(at0).drop_first() =~= text.skip(at0 + 1));
        }
        if is_digit(c) {
            let ghost file0 = file;
            let ghost add0 = add_file;
            let ghost block: i64 = if add_file {
                file
            } else {
                -1i64
            };
            let ghost result0 = result@;
            let size = digit_value(c);
            let mut b: u32 = 0;
            while b < size
                invariant
                    b <= size,
                    size == digit_val(c),
                    block == (if add_file {
                        file
                    } else {
                        -1i64
                    }),
                    result@ == result0 + Seq::new(b as nat, |t: int| block),
                decreases size - b,
            {
                if add_file {
                    result.push(file);
                } else {
                    result.push(-1);
                }
                b = b + 1;
                proof {
                    assert(result@ =~= result0 + Seq::new(b as nat, |t: int| block));
                }
            }
            if add_file && file < i64::MAX {
                file = file + 1;
            }
            add_file = !add_file;
            proof {
                assert(expand_from(text.skip(at0), file0, add0) == Seq::new(
                    size as nat,
                    |t: int| block,
                ) + expand_from(text.skip(at0 + 1), file, add_file));
                assert(result0 + (Seq::new(size as nat, |t: int| block) + expand_from(
                    text.skip(at0 + 1),
                    file,
                    add_file,
                )) =~= (result0 + Seq::new(size as nat, |t: int| block)) + expand_from(
                    text.skip(at0 + 1),
                    file,
                    add_file,
                ));
            }
        }
    }
    result
}

/// The disk map as stretches: alternating file and free-space entries.
fn parse_input2(input: String) -> (result: Vec<DiskPart>)
    ensures
        result@ == expand_parts_from(input@, 0, true),
{
    let ghost text = input@;
    let mut parser = Parser::new(input.as_str());
    let mut id: u64 = 0;
    let mut add_file = true;
    let mut result: Vec<DiskPart> = Vec::new();
    proof {
        assert(text.skip(0) =~= text);
        assert(result@ + expand_parts_from(text, 0, true) =~= expand_parts_from(text, 0, true));
    }
    loop
        invariant
            parser.wf(),
            parser.text() == text,
            expand_parts_from(text, 0, true) == result@ + expand_parts_from(
                text.skip(parser.at()),
                id,
                add_file,
            ),
        ensures
            expand_parts_from(text, 0, true) == result@,
        decreases parser.text().len() - parser.at(),
    {
        let ghost at0 = parser.at();
        let c = match parser.pop() {
            Option::Some(c) => c,
            Option::None => {
                proof {
                    assert(text.skip(at0).len() == 0);
                    assert(result@ + expand_parts_from(text.skip(at0), id, add_file) =~= result@);
                }
                break;
            },
        };
        proof {
            assert(text.skip(at0)[0] == c);
            assert(text.skip(at0).drop_first() =~= text.skip(at0 + 1));
        }
        if is_digit(c) {
            let ghost id0 = id;
            let ghost add0 = add_file;
            let ghost result0 = result@;
            let ghost part: DiskPart = if add_file {
                DiskPart::File { id, size: digit_val(c) as u64 }
            } else {
                DiskPart::FreeSpace { free: digit_val(c) as u64 }
            };
            let size = digit_value(c) as u64;
            if add_file {
                result.push(DiskPart::new_file(id, size));
                if id < u64::MAX {
                    id = id + 1;
                }
            } else {
                result.push(DiskPart::new_free_space(size));
            }
            add_file = !add_file;
            proof {
                assert(expand_parts_from(text.skip(at0), id0, add0) == seq![part]
                    + expand_parts_from(text.skip(at0 + 1), id, add_file));
                assert(result@ =~= result0 + seq![part]);
                assert(result0 + (seq![part] + expand_parts_from(text.skip(at0 + 1), id, add_file))
                    =~= (result0 + seq![part]) + expand_parts_from(
                    text.skip(at0 + 1),
                    id,
                    add_file,
                ));
            }
        }
    }
    result
}

} // verus!
