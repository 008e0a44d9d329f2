//! The flat filesystem: a root directory of named entries, files of bytes,
//! and the two allocation bitmaps (inodes and data blocks).
//!
//! A file of `size` bytes holds exactly `ceil(size / 512)` data blocks; a
//! directory of `n` entries has size `32 * n`.  Blocks are taken from the
//! data bitmap lowest free first, and are given back when a file shrinks.
use vstd::prelude::*;

verus! {

pub const BLOCK_SZ: usize = 512;
pub const DIRENT_SZ: usize = 32;
/// Longest name a directory entry holds.
pub const NAME_LENGTH_LIMIT: usize = 27;
/// Largest size of a file: 28 direct blocks, 128 through the indirect
/// block and 128 * 128 through the doubly indirect one, of 512 bytes each.
pub const INODE_CAPACITY: usize = 8468480;
/// Inode of the root directory.
pub const ROOT_INODE: u32 = 0;

#[derive(PartialEq, Eq, Structural, Debug, Clone, Copy)]
pub enum DiskInodeType {
    File,
    Directory,
}

/// A directory entry: a name of at most 27 bytes and the inode it names.
pub struct DirEntry {
    pub name: Vec<u8>,
    pub inode_id: u32,
}

/// An inode on disk.
pub struct DiskInode {
    pub kind: DiskInodeType,
    pub size: u32,
    /// Bytes of a file.
    pub data: Vec<u8>,
    /// Entries of a directory.
    pub entries: Vec<DirEntry>,
    /// Data blocks held, in the order they were taken.
    pub blocks: Vec<u32>,
}

/// Blocks that `size` bytes take.
pub open spec fn blocks_for(size: int) -> int {
    (size + BLOCK_SZ - 1) / BLOCK_SZ as int
}

/// The entries of a directory as (name, inode) pairs.
pub open spec fn entries_view(es: Seq<DirEntry>) -> Seq<(Seq<u8>, u32)> {
    es.map_values(|e: DirEntry| (e.name@, e.inode_id))
}

impl DiskInode {
    pub open spec fn wf(&self) -> bool {
        &&& self.size <= INODE_CAPACITY
        &&& self.blocks@.len() == blocks_for(self.size as int)
        &&& self.kind == DiskInodeType::File ==> self.data@.len() == self.size && self.entries@.len() == 0
        &&& self.kind == DiskInodeType::Directory ==> self.size == DIRENT_SZ * self.entries@.len()
            && self.data@.len() == 0
    }

    pub open spec fn dir(&self) -> Seq<(Seq<u8>, u32)> {
        entries_view(self.entries@)
    }

    /// An empty inode of the given kind.
    pub fn new_empty(kind: DiskInodeType) -> (d: Self)
        ensures
            d.wf(),
            d.kind == kind,
            d.size == 0,
            d.data@ == Seq::<u8>::empty(),
            d.dir() == Seq::<(Seq<u8>, u32)>::empty(),
            d.blocks@ == Seq::<u32>::empty(),
    {
        let d = DiskInode { kind, size: 0, data: Vec::new(), entries: Vec::new(), blocks: Vec::new() };
        proof {
            assert(d.dir() =~= Seq::<(Seq<u8>, u32)>::empty());
        }
        d
    }

    pub fn is_dir(&self) -> (r: bool)
        ensures
            r == (self.kind == DiskInodeType::Directory),
    {
        match self.kind {
            DiskInodeType::Directory => true,
            DiskInodeType::File => false,
        }
    }
}

/// Index of the lowest clear bit, or -1.
pub open spec fn first_free(bm: Seq<bool>) -> int
    decreases bm.len(),
{
    if bm.len() == 0 {
        -1
    } else {
        let k = first_free(bm.drop_last());
        if k >= 0 {
            k
        } else if !bm.last() {
            bm.len() - 1
        } else {
            -1
        }
    }
}

/// Number of clear bits.
pub open spec fn free_count(bm: Seq<bool>) -> nat
    decreases bm.len(),
{
    if bm.len() == 0 {
        0
    } else {
        free_count(bm.drop_last()) + if bm.last() {
            0nat
        } else {
            1nat
        }
    }
}

proof fn lemma_first_free(bm: Seq<bool>)
    ensures
        -1 <= first_free(bm) < bm.len(),
        first_free(bm) >= 0 ==> !bm[first_free(bm)],
        forall|i: int| 0 <= i < first_free(bm) ==> #[trigger] bm[i],
        first_free(bm) == -1 ==> forall|i: int| 0 <= i < bm.len() ==> #[trigger] bm[i],
        first_free(bm) == -1 <==> free_count(bm) == 0,
    decreases bm.len(),
{
    if bm.len() > 0 {
        lemma_first_free(bm.drop_last());
        assert forall|i: int| 0 <= i < bm.len() - 1 implies bm.drop_last()[i] == bm[i] by {}
    }
}

proof fn lemma_free_count_update(bm: Seq<bool>, i: int, v: bool)
    requires
        0 <= i < bm.len(),
    ensures
        free_count(bm.update(i, v)) + (if bm[i] { 0int } else { 1int }) == free_count(bm) + (if v { 0int } else { 1int }),
    decreases bm.len(),
{
    if i < bm.len() - 1 {
        assert(bm.update(i, v).drop_last() =~= bm.drop_last().update(i, v));
        lemma_free_count_update(bm.drop_last(), i, v);
    } else {
        assert(bm.update(i, v).drop_last() =~= bm.drop_last());
    }
}

proof fn lemma_first_free_prefix(bm: Seq<bool>, n: int)
    requires
        0 <= n <= bm.len(),
        first_free(bm.take(n)) >= 0,
    ensures
        first_free(bm) == first_free(bm.take(n)),
    decreases bm.len() - n,
{
    if n < bm.len() {
        assert(bm.take(n + 1).drop_last() =~= bm.take(n));
        lemma_first_free_prefix(bm, n + 1);
    } else {
        assert(bm.take(n) =~= bm);
    }
}

/// Lowest clear bit of `bm`, which must have one.
fn find_free(bm: &Vec<bool>) -> (r: usize)
    requires
        free_count(bm@) > 0,
    ensures
        r == first_free(bm@),
        r < bm@.len(),
        !bm@[r as int],
{
    proof {
        lemma_first_free(bm@);
    }
    let mut i: usize = 0;
    while i < bm.len()
        invariant
            i <= bm@.len(),
            first_free(bm@.take(i as int)) == -1,
            free_count(bm@) > 0,
            first_free(bm@) >= 0,
        decreases bm@.len() - i,
    {
        proof {
            assert(bm@.take(i as int + 1).drop_last() =~= bm@.take(i as int));
        }
        if !bm[i] {
            proof {
                lemma_first_free_prefix(bm@, i as int + 1);
            }
            return i;
        }
        i += 1;
    }
    proof {
        assert(bm@.take(i as int) =~= bm@);
    }
    0
}

/// Some entry of `blocks[lo..hi]` is block `b`.
pub open spec fn held_in(blocks: Seq<u32>, lo: int, hi: int, b: int) -> bool {
    exists|k: int| lo <= k < hi && blocks[k] as int == b
}

/// File bytes after writing `buf` at `offset`: the file grows, zero
/// filled, to reach `offset + |buf|` if it is shorter.
pub open spec fn written(data: Seq<u8>, offset: int, buf: Seq<u8>) -> Seq<u8> {
    let end = offset + buf.len();
    let grown = if end > data.len() {
        data + Seq::new((end - data.len()) as nat, |i: int| 0u8)
    } else {
        data
    };
    Seq::new(grown.len(), |i: int| if offset <= i < end { buf[i - offset] } else { grown[i] })
}

/// Bytes that reading `len` bytes at `offset` returns.
pub open spec fn read_result(data: Seq<u8>, offset: int, len: int) -> Seq<u8> {
    if offset >= data.len() {
        Seq::empty()
    } else if offset + len > data.len() {
        data.subrange(offset, data.len() as int)
    } else {
        data.subrange(offset, offset + len)
    }
}

/// Number of entries naming inode `id`.
pub open spec fn link_count(dir: Seq<(Seq<u8>, u32)>, id: u32) -> nat
    decreases dir.len(),
{
    if dir.len() == 0 {
        0
    } else {
        link_count(dir.drop_last(), id) + if dir.last().1 == id {
            1nat
        } else {
            0nat
        }
    }
}

/// Index of the first entry called `name`, or -1.
pub open spec fn find_entry(dir: Seq<(Seq<u8>, u32)>, name: Seq<u8>) -> int
    decreases dir.len(),
{
    if dir.len() == 0 {
        -1
    } else {
        let k = find_entry(dir.drop_last(), name);
        if k >= 0 {
            k
        } else if dir.last().0 == name {
            dir.len() - 1
        } else {
            -1
        }
    }
}

proof fn lemma_find_entry(dir: Seq<(Seq<u8>, u32)>, name: Seq<u8>)
    ensures
        -1 <= find_entry(dir, name) < dir.len(),
        find_entry(dir, name) >= 0 ==> dir[find_entry(dir, name)].0 == name,
        forall|i: int| 0 <= i < find_entry(dir, name) ==> #[trigger] dir[i].0 != name,
        find_entry(dir, name) == -1 ==> forall|i: int| 0 <= i < dir.len() ==> #[trigger] dir[i].0 != name,
    decreases dir.len(),
{
    if dir.len() > 0 {
        lemma_find_entry(dir.drop_last(), name);
        assert forall|i: int| 0 <= i < dir.len() - 1 implies dir.drop_last()[i] == dir[i] by {}
    }
}

proof fn lemma_find_entry_prefix(dir: Seq<(Seq<u8>, u32)>, name: Seq<u8>, n: int)
    requires
        0 <= n <= dir.len(),
        find_entry(dir.take(n), name) >= 0,
    ensures
        find_entry(dir, name) == find_entry(dir.take(n), name),
    decreases dir.len() - n,
{
    if n < dir.len() {
        assert(dir.take(n + 1).drop_last() =~= dir.take(n));
        lemma_find_entry_prefix(dir, name, n + 1);
    } else {
        assert(dir.take(n) =~= dir);
    }
}

/// The directory with entry `i` removed by moving the last entry into its place.
pub open spec fn swap_remove(dir: Seq<(Seq<u8>, u32)>, i: int) -> Seq<(Seq<u8>, u32)> {
    dir.update(i, dir.last()).drop_last()
}

fn bytes_eq(a: &Vec<u8>, b: &[u8]) -> (r: bool)
    ensures
        r == (a@ == b@),
{
    if a.len() != b.len() {
        return false;
    }
    let mut i: usize = 0;
    while i < a.len()
        invariant
            i <= a@.len(),
            a@.len() == b@.len(),
            forall|k: int| 0 <= k < i ==> a@[k] == b@[k],
        decreases a@.len() - i,
    {
        if a[i] != b[i] {
            return false;
        }
        i += 1;
    }
    proof {
        assert(a@ =~= b@);
    }
    true
}

fn copy_bytes(b: &[u8]) -> (r: Vec<u8>)
    ensures
        r@ == b@,
{
    let mut out: Vec<u8> = Vec::new();
    let mut i: usize = 0;
    while i < b.len()
        invariant
            i <= b@.len(),
            out@ == b@.subrange(0, i as int),
        decreases b@.len() - i,
    {
        out.push(b[i]);
        i += 1;
        proof {
            assert(out@ =~= b@.subrange(0, i as int));
        }
    }
    proof {
        assert(out@ =~= b@);
    }
    out
}

fn copy_vec(b: &Vec<u8>) -> (r: Vec<u8>)
    ensures
        r@ == b@,
{
    copy_bytes(b.as_slice())
}

/// The filesystem: every inode, and the two bitmaps.
pub struct EasyFileSystem {
    pub inodes: Vec<DiskInode>,
    pub inode_bitmap: Vec<bool>,
    pub data_bitmap: Vec<bool>,
}

impl EasyFileSystem {
    pub open spec fn wf(&self) -> bool {
        &&& self.inodes@.len() == self.inode_bitmap@.len()
        &&& self.inodes@.len() > ROOT_INODE
        &&& self.inode_bitmap@[ROOT_INODE as int]
        &&& self.inodes@[ROOT_INODE as int].kind == DiskInodeType::Directory
        &&& forall|i: int| 0 <= i < self.inodes@.len() ==> (#[trigger] self.inodes@[i]).wf()
        &&& forall|k: int| 0 <= k < self.root().len() ==> {
            let id = (#[trigger] self.root()[k]).1;
            id < self.inodes@.len() && self.inode_bitmap@[id as int]
        }
        &&& forall|i: int, k: int|
            0 <= i < self.inodes@.len() && 0 <= k < self.inodes@[i].blocks@.len() ==> (#[trigger] self.inodes@[i].blocks@[k])
                < self.data_bitmap@.len()
        &&& self.data_bitmap@.len() <= u32::MAX
        &&& forall|i: int| 0 <= i < self.inodes@.len() && !#[trigger] self.inode_bitmap@[i] ==> self.inodes@[i].blocks@.len() == 0
    }

    /// Entries of the root directory.
    pub open spec fn root(&self) -> Seq<(Seq<u8>, u32)> {
        self.inodes@[ROOT_INODE as int].dir()
    }

    /// Creates a filesystem with room for `inode_count` inodes and
    /// `data_blocks` data blocks, holding an empty root directory.
    pub fn create(inode_count: usize, data_blocks: usize) -> (fs: Self)
        requires
            inode_count > 0,
            data_blocks <= u32::MAX,
        ensures
            fs.wf(),
            fs.root() == Seq::<(Seq<u8>, u32)>::empty(),
            fs.inodes@.len() == inode_count,
            fs.data_bitmap@.len() == data_blocks,
            free_count(fs.data_bitmap@) == data_blocks,
            free_count(fs.inode_bitmap@) == inode_count - 1,
            forall|j: int| 0 <= j < data_blocks ==> !#[trigger] fs.data_bitmap@[j],
            forall|k: int| 0 < k < inode_count ==> !#[trigger] fs.inode_bitmap@[k],
            forall|k: int|
                0 < k < inode_count ==> (#[trigger] fs.inodes@[k]).kind == DiskInodeType::File && fs.inodes@[k].size == 0
                    && fs.inodes@[k].data@.len() == 0,
            fs.inodes@[ROOT_INODE as int].blocks@.len() == 0,
    {
        let mut inodes: Vec<DiskInode> = Vec::new();
        let mut inode_bitmap: Vec<bool> = Vec::new();
        let mut i: usize = 0;
        while i < inode_count
            invariant
                i <= inode_count,
                inodes@.len() == i,
                inode_bitmap@.len() == i,
                i > 0 ==> inode_bitmap@[0] && inodes@[0].kind == DiskInodeType::Directory && inodes@[0].dir()
                    == Seq::<(Seq<u8>, u32)>::empty(),
                forall|k: int| 0 < k < i ==> !#[trigger] inode_bitmap@[k],
                forall|k: int| 0 <= k < i ==> (#[trigger] inodes@[k]).wf(),
                forall|k: int| 0 <= k < i ==> (#[trigger] inodes@[k]).blocks@.len() == 0,
                forall|k: int|
                    0 < k < i ==> (#[trigger] inodes@[k]).kind == DiskInodeType::File && inodes@[k].size == 0
                        && inodes@[k].data@.len() == 0,
                free_count(inode_bitmap@) == if i == 0 { 0 } else { i - 1 },
            decreases inode_count - i,
        {
            let ghost pre = inode_bitmap@;
            if i == 0 {
                inodes.push(DiskInode::new_empty(DiskInodeType::Directory));
                inode_bitmap.push(true);
            } else {
                inodes.push(DiskInode::new_empty(DiskInodeType::File));
                inode_bitmap.push(false);
            }
            proof {
                assert(inode_bitmap@.drop_last() =~= pre);
            }
            i += 1;
        }
        let mut data_bitmap: Vec<bool> = Vec::new();
        let mut j: usize = 0;
        while j < data_blocks
            invariant
                j <= data_blocks,
                data_bitmap@.len() == j,
                free_count(data_bitmap@) == j,
                forall|k: int| 0 <= k < j ==> !#[trigger] data_bitmap@[k],
            decreases data_blocks - j,
        {
            let ghost pre = data_bitmap@;
            data_bitmap.push(false);
            proof {
                assert(data_bitmap@.drop_last() =~= pre);
            }
            j += 1;
        }
        EasyFileSystem { inodes, inode_bitmap, data_bitmap }
    }

    /// Takes the lowest free data block.
    fn alloc_data(&mut self) -> (b: u32)
        requires
            free_count(old(self).data_bitmap@) > 0,
            old(self).data_bitmap@.len() <= u32::MAX,
        ensures
            b == first_free(old(self).data_bitmap@),
            (b as int) < old(self).data_bitmap@.len(),
            final(self).data_bitmap@.len() == old(self).data_bitmap@.len(),
            final(self).data_bitmap@ == old(self).data_bitmap@.update(b as int, true),
            free_count(final(self).data_bitmap@) + 1 == free_count(old(self).data_bitmap@),
            final(self).inodes == old(self).inodes,
            final(self).inode_bitmap == old(self).inode_bitmap,
    {
        let b = find_free(&self.data_bitmap);
        proof {
            lemma_free_count_update(self.data_bitmap@, b as int, true);
        }
        self.data_bitmap.set(b, true);
        b as u32
    }

    /// Gives back data block `b`.
    fn dealloc_data(&mut self, b: u32)
        requires
            (b as int) < old(self).data_bitmap@.len(),
        ensures
            final(self).data_bitmap@ == old(self).data_bitmap@.update(b as int, false),
            final(self).inodes == old(self).inodes,
            final(self).inode_bitmap == old(self).inode_bitmap,
    {
        self.data_bitmap.set(b as usize, false);
    }

    /// Grows the blocks of `d` to `target`, taking the lowest free blocks.
    fn grow_blocks(&mut self, d: &mut DiskInode, target: usize)
        requires
            old(d).blocks@.len() <= target,
            target - old(d).blocks@.len() <= free_count(old(self).data_bitmap@),
            old(self).data_bitmap@.len() <= u32::MAX,
            forall|k: int| 0 <= k < old(d).blocks@.len() ==> (#[trigger] old(d).blocks@[k]) < old(self).data_bitmap@.len(),
        ensures
            final(d).blocks@.len() == target,
            final(d).blocks@.subrange(0, old(d).blocks@.len() as int) == old(d).blocks@,
            forall|k: int| 0 <= k < final(d).blocks@.len() ==> (#[trigger] final(d).blocks@[k]) < final(self).data_bitmap@.len(),
            final(d).kind == old(d).kind && final(d).size == old(d).size,
            final(d).data == old(d).data && final(d).entries == old(d).entries,
            final(self).inodes == old(self).inodes,
            final(self).inode_bitmap == old(self).inode_bitmap,
            final(self).data_bitmap@.len() == old(self).data_bitmap@.len(),
            free_count(final(self).data_bitmap@) + (target - old(d).blocks@.len()) == free_count(old(self).data_bitmap@),
            target == old(d).blocks@.len() ==> final(self).data_bitmap@ == old(self).data_bitmap@
                && final(d).blocks@ == old(d).blocks@,
            target == old(d).blocks@.len() + 1 ==> final(self).data_bitmap@ == old(self).data_bitmap@.update(
                first_free(old(self).data_bitmap@),
                true,
            ) && final(d).blocks@ == old(d).blocks@.push(first_free(old(self).data_bitmap@) as u32),
    {
        let ghost start = d.blocks@;
        let ghost bm0 = self.data_bitmap@;
        while d.blocks.len() < target
            invariant
                start.len() <= d.blocks@.len() <= target,
                d.blocks@.subrange(0, start.len() as int) == start,
                forall|k: int| 0 <= k < d.blocks@.len() ==> (#[trigger] d.blocks@[k]) < self.data_bitmap@.len(),
                d.kind == old(d).kind && d.size == old(d).size,
                d.data == old(d).data && d.entries == old(d).entries,
                self.inodes == old(self).inodes,
                self.inode_bitmap == old(self).inode_bitmap,
                self.data_bitmap@.len() == bm0.len(),
                bm0 == old(self).data_bitmap@,
                bm0.len() <= u32::MAX,
                free_count(self.data_bitmap@) + (d.blocks@.len() - start.len()) == free_count(bm0),
                target - start.len() <= free_count(bm0),
                d.blocks@.len() == start.len() ==> self.data_bitmap@ == bm0,
                d.blocks@.len() == start.len() + 1 ==> self.data_bitmap@ == bm0.update(first_free(bm0), true)
                    && d.blocks@ == start.push(first_free(bm0) as u32),
            decreases target - d.blocks@.len(),
        {
            let ghost before = d.blocks@;
            let b = self.alloc_data();
            d.blocks.push(b);
            proof {
                lemma_first_free(bm0);
                assert(d.blocks@.subrange(0, start.len() as int) =~= before.subrange(0, start.len() as int));
                if before.len() == start.len() {
                    assert(before =~= start);
                }
            }
        }
    }

    /// Shrinks the blocks of `d` to `target`, giving back the last ones taken.
    fn shrink_blocks(&mut self, d: &mut DiskInode, target: usize)
        requires
            target <= old(d).blocks@.len(),
            forall|k: int| 0 <= k < old(d).blocks@.len() ==> (#[trigger] old(d).blocks@[k]) < old(self).data_bitmap@.len(),
        ensures
            final(d).blocks@ == old(d).blocks@.subrange(0, target as int),
            final(d).kind == old(d).kind && final(d).size == old(d).size,
            final(d).data == old(d).data && final(d).entries == old(d).entries,
            final(self).inodes == old(self).inodes,
            final(self).inode_bitmap == old(self).inode_bitmap,
            final(self).data_bitmap@.len() == old(self).data_bitmap@.len(),
            target == old(d).blocks@.len() ==> final(self).data_bitmap@ == old(self).data_bitmap@,
            target + 1 == old(d).blocks@.len() ==> final(self).data_bitmap@ == old(self).data_bitmap@.update(
                old(d).blocks@.last() as int,
                false,
            ),
            forall|b: int|
                0 <= b < old(self).data_bitmap@.len() ==> #[trigger] final(self).data_bitmap@[b] == if held_in(
                    old(d).blocks@,
                    target as int,
                    old(d).blocks@.len() as int,
                    b,
                ) {
                    false
                } else {
                    old(self).data_bitmap@[b]
                },
    {
        let ghost start = d.blocks@;
        let ghost bm0 = self.data_bitmap@;
        while d.blocks.len() > target
            invariant
                target <= d.blocks@.len() <= start.len(),
                d.blocks@ == start.subrange(0, d.blocks@.len() as int),
                forall|k: int| 0 <= k < start.len() ==> (#[trigger] start[k]) < bm0.len(),
                d.kind == old(d).kind && d.size == old(d).size,
                d.data == old(d).data && d.entries == old(d).entries,
                self.inodes == old(self).inodes,
                self.inode_bitmap == old(self).inode_bitmap,
                self.data_bitmap@.len() == bm0.len(),
                bm0 == old(self).data_bitmap@,
                start == old(d).blocks@,
                d.blocks@.len() == start.len() ==> self.data_bitmap@ == bm0,
                d.blocks@.len() + 1 == start.len() ==> self.data_bitmap@ == bm0.update(start.last() as int, false),
                forall|b: int|
                    0 <= b < bm0.len() ==> #[trigger] self.data_bitmap@[b] == if held_in(start, d.blocks@.len() as int, start.len() as int, b) {
                        false
                    } else {
                        bm0[b]
                    },
            decreases d.blocks@.len(),
        {
            let ghost before = d.blocks@;
            let ghost bm_before = self.data_bitmap@;
            let b = d.blocks.pop().unwrap();
            proof {
                assert(b == start[before.len() - 1]);
                let lo = before.len() - 1;
                assert forall|x: int| held_in(start, lo, start.len() as int, x) == (x == b as int || held_in(
                    start,
                    before.len() as int,
                    start.len() as int,
                    x,
                )) by {
                    if held_in(start, lo, start.len() as int, x) {
                        let k = choose|k: int| lo <= k < start.len() && start[k] as int == x;
                        if k != lo {
                            assert(held_in(start, before.len() as int, start.len() as int, x));
                        }
                    }
                    if x == b as int {
                        assert(start[lo] as int == x);
                    }
                    if held_in(start, before.len() as int, start.len() as int, x) {
                        let k = choose|k: int| before.len() <= k < start.len() && start[k] as int == x;
                        assert(lo <= k);
                    }
                }
                assert(d.blocks@ =~= start.subrange(0, d.blocks@.len() as int));
            }
            self.dealloc_data(b);
        }
    }

    /// Takes inode `i` out, leaving an empty one in its place.
    fn take_inode(&mut self, i: usize) -> (d: DiskInode)
        requires
            i < old(self).inodes@.len(),
        ensures
            d == old(self).inodes@[i as int],
            final(self).inodes@.len() == old(self).inodes@.len(),
            forall|k: int| 0 <= k < old(self).inodes@.len() && k != i ==> #[trigger] final(self).inodes@[k] == old(self).inodes@[k],
            final(self).inodes@[i as int].blocks@.len() == 0,
            final(self).inodes@[i as int].wf(),
            final(self).inodes@[i as int].kind == old(self).inodes@[i as int].kind,
            final(self).inode_bitmap == old(self).inode_bitmap,
            final(self).data_bitmap == old(self).data_bitmap,
    {
        let kind = self.inodes[i].kind;
        let mut d = DiskInode::new_empty(kind);
        std::mem::swap(&mut d, &mut self.inodes[i]);
        d
    }
}

/// An inode as the kernel holds it: which inode of the filesystem.
#[derive(PartialEq, Eq, Structural, Debug, Clone, Copy)]
pub struct Inode {
    pub inode_id: u32,
}

/// A file that `open_file` opened.
#[derive(PartialEq, Eq, Structural, Debug, Clone, Copy)]
pub struct OpenedFile {
    pub inode: Inode,
    pub readable: bool,
    pub writable: bool,
}

impl Inode {
    pub fn new(inode_id: u32) -> (r: Self)
        ensures
            r.inode_id == inode_id,
    {
        Inode { inode_id }
    }

    pub fn get_inode_id(&self) -> (r: u32)
        ensures
            r == self.inode_id,
    {
        self.inode_id
    }

    pub fn get_inode_is_dir(&self, fs: &EasyFileSystem) -> (r: bool)
        requires
            self.inode_id < fs.inodes@.len(),
        ensures
            r == (fs.inodes@[self.inode_id as int].kind == DiskInodeType::Directory),
    {
        fs.inodes[self.inode_id as usize].is_dir()
    }

    /// Index of the first entry called `name` in this directory, the root.
    fn find_index(&self, fs: &EasyFileSystem, name: &[u8]) -> (r: Option<usize>)
        requires
            fs.wf(),
            self.inode_id == ROOT_INODE,
        ensures
            r is None <==> find_entry(fs.root(), name@) == -1,
            r matches Some(i) ==> i == find_entry(fs.root(), name@) && i < fs.root().len(),
    {
        let es = &fs.inodes[ROOT_INODE as usize].entries;
        let ghost dir = fs.root();
        proof {
            lemma_find_entry(dir, name@);
        }
        let mut i: usize = 0;
        while i < es.len()
            invariant
                i <= es@.len(),
                dir == entries_view(es@),
                dir == fs.root(),
                find_entry(dir.take(i as int), name@) == -1,
            decreases es@.len() - i,
        {
            proof {
                assert(dir.take(i as int + 1).drop_last() =~= dir.take(i as int));
            }
            if bytes_eq(&es[i].name, name) {
                proof {
                    assert(dir[i as int] == (es@[i as int].name@, es@[i as int].inode_id));
                    assert(dir.take(i as int + 1).last() == dir[i as int]);
                    assert(find_entry(dir.take(i as int + 1), name@) == i);
                    lemma_find_entry_prefix(dir, name@, i as int + 1);
                }
                return Some(i);
            }
            i += 1;
        }
        proof {
            assert(dir.take(i as int) =~= dir);
        }
        None
    }

    /// Inode named `name` in this directory, the root.
    fn find_inode_id(&self, fs: &EasyFileSystem, name: &[u8]) -> (r: Option<u32>)
        requires
            fs.wf(),
            self.inode_id == ROOT_INODE,
        ensures
            r is None <==> find_entry(fs.root(), name@) == -1,
            r matches Some(id) ==> id == fs.root()[find_entry(fs.root(), name@)].1,
    {
        match self.find_index(fs, name) {
            Some(i) => Some(fs.inodes[ROOT_INODE as usize].entries[i].inode_id),
            None => None,
        }
    }

    /// The entry called `name` in this directory, the root.
    pub fn find(&self, fs: &EasyFileSystem, name: &[u8]) -> (r: Option<Inode>)
        requires
            fs.wf(),
            self.inode_id == ROOT_INODE,
        ensures
            r is None <==> find_entry(fs.root(), name@) == -1,
            r matches Some(n) ==> n.inode_id == fs.root()[find_entry(fs.root(), name@)].1,
    {
        match self.find_inode_id(fs, name) {
            Some(id) => Some(Inode::new(id)),
            None => None,
        }
    }

    /// Names in this directory, the root, in entry order.
    pub fn ls(&self, fs: &EasyFileSystem) -> (r: Vec<Vec<u8>>)
        requires
            fs.wf(),
            self.inode_id == ROOT_INODE,
        ensures
            r@.len() == fs.root().len(),
            forall|k: int| 0 <= k < r@.len() ==> (#[trigger] r@[k])@ == fs.root()[k].0,
    {
        let es = &fs.inodes[ROOT_INODE as usize].entries;
        let mut out: Vec<Vec<u8>> = Vec::new();
        let mut i: usize = 0;
        while i < es.len()
            invariant
                i <= es@.len(),
                fs.root() == entries_view(es@),
                out@.len() == i,
                forall|k: int| 0 <= k < i ==> (#[trigger] out@[k])@ == fs.root()[k].0,
            decreases es@.len() - i,
        {
            out.push(copy_vec(&es[i].name));
            i += 1;
        }
        out
    }

    /// Adds the entry (`name`, `id`) at the end of this directory, the root.
    fn append_entry(&self, fs: &mut EasyFileSystem, name: &[u8], id: u32)
        requires
            old(fs).wf(),
            self.inode_id == ROOT_INODE,
            name@.len() <= NAME_LENGTH_LIMIT,
            (id as int) < old(fs).inodes@.len(),
            old(fs).inode_bitmap@[id as int],
            DIRENT_SZ * (old(fs).root().len() + 1) <= INODE_CAPACITY,
            blocks_for(DIRENT_SZ * (old(fs).root().len() + 1)) - blocks_for(DIRENT_SZ * old(fs).root().len())
                <= free_count(old(fs).data_bitmap@),
        ensures
            final(fs).wf(),
            final(fs).root() == old(fs).root().push((name@, id)),
            final(fs).inode_bitmap == old(fs).inode_bitmap,
            final(fs).inodes@.len() == old(fs).inodes@.len(),
            forall|k: int| 0 <= k < old(fs).inodes@.len() && k != ROOT_INODE ==> #[trigger] final(fs).inodes@[k] == old(fs).inodes@[k],
            final(fs).data_bitmap@.len() == old(fs).data_bitmap@.len(),
            final(fs).inodes@[ROOT_INODE as int].blocks@.len() == blocks_for(DIRENT_SZ * (old(fs).root().len() + 1)),
            free_count(final(fs).data_bitmap@) + (blocks_for(DIRENT_SZ * (old(fs).root().len() + 1)) - blocks_for(
                DIRENT_SZ * old(fs).root().len(),
            )) == free_count(old(fs).data_bitmap@),
            blocks_for(DIRENT_SZ * (old(fs).root().len() + 1)) == blocks_for(DIRENT_SZ * old(fs).root().len())
                ==> final(fs).data_bitmap@ == old(fs).data_bitmap@
                && final(fs).inodes@[ROOT_INODE as int].blocks@ == old(fs).inodes@[ROOT_INODE as int].blocks@,
            blocks_for(DIRENT_SZ * (old(fs).root().len() + 1)) == blocks_for(DIRENT_SZ * old(fs).root().len()) + 1
                ==> final(fs).data_bitmap@ == old(fs).data_bitmap@.update(first_free(old(fs).data_bitmap@), true)
                && final(fs).inodes@[ROOT_INODE as int].blocks@ == old(fs).inodes@[ROOT_INODE as int].blocks@.push(
                first_free(old(fs).data_bitmap@) as u32,
            ),
    {
        let ghost pre = *fs;
        let mut d = fs.take_inode(ROOT_INODE as usize);
        let n = d.entries.len();
        let new_size = (n + 1) * DIRENT_SZ;
        let target = new_size / BLOCK_SZ + if new_size % BLOCK_SZ == 0 { 0 } else { 1 };
        proof {
            assert(target == blocks_for(new_size as int));
            assert(d.blocks@.len() == blocks_for(DIRENT_SZ * n));
            assert(blocks_for(DIRENT_SZ * n) <= blocks_for(new_size as int));
            assert forall|k: int| 0 <= k < d.blocks@.len() implies (#[trigger] d.blocks@[k]) < fs.data_bitmap@.len() by {
                assert(pre.inodes@[ROOT_INODE as int].blocks@[k] < pre.data_bitmap@.len());
            }
        }
        fs.grow_blocks(&mut d, target);
        d.entries.push(DirEntry { name: copy_bytes(name), inode_id: id });
        d.size = new_size as u32;
        let ghost mid = *fs;
        fs.inodes.set(ROOT_INODE as usize, d);
        proof {
            assert(fs.root() =~= pre.root().push((name@, id)));
            assert forall|i: int| 0 <= i < fs.inodes@.len() implies (#[trigger] fs.inodes@[i]).wf() by {
                if i != ROOT_INODE {
                    assert(fs.inodes@[i] == pre.inodes@[i]);
                }
            }
            assert forall|k: int| 0 <= k < fs.root().len() implies {
                let x = (#[trigger] fs.root()[k]).1;
                x < fs.inodes@.len() && fs.inode_bitmap@[x as int]
            } by {
                if k < pre.root().len() {
                    assert(fs.root()[k] == pre.root()[k]);
                }
            }
            assert forall|i: int, k: int|
                0 <= i < fs.inodes@.len() && 0 <= k < fs.inodes@[i].blocks@.len() implies (#[trigger] fs.inodes@[i].blocks@[k])
                    < fs.data_bitmap@.len() by {
                if i != ROOT_INODE {
                    assert(fs.inodes@[i] == pre.inodes@[i]);
                }
            }
            assert forall|i: int| 0 <= i < fs.inodes@.len() && !#[trigger] fs.inode_bitmap@[i] implies fs.inodes@[i].blocks@.len() == 0 by {
                assert(fs.inodes@[i] == pre.inodes@[i]);
            }
        }
    }

    /// Creates an empty file called `name` in this directory, the root,
    /// on the lowest free inode.  None when the name is already there.
    pub fn create(&self, fs: &mut EasyFileSystem, name: &[u8]) -> (r: Option<Inode>)
        requires
            old(fs).wf(),
            self.inode_id == ROOT_INODE,
            name@.len() <= NAME_LENGTH_LIMIT,
            free_count(old(fs).inode_bitmap@) > 0,
            old(fs).inodes@.len() <= u32::MAX,
            DIRENT_SZ * (old(fs).root().len() + 1) <= INODE_CAPACITY,
            blocks_for(DIRENT_SZ * (old(fs).root().len() + 1)) - blocks_for(DIRENT_SZ * old(fs).root().len())
                <= free_count(old(fs).data_bitmap@),
        ensures
            final(fs).wf(),
            find_entry(old(fs).root(), name@) >= 0 ==> r is None && *final(fs) == *old(fs),
            find_entry(old(fs).root(), name@) == -1 ==> {
                let id = first_free(old(fs).inode_bitmap@);
                &&& r == Some(Inode { inode_id: id as u32 })
                &&& final(fs).root() == old(fs).root().push((name@, id as u32))
                &&& final(fs).inode_bitmap@ == old(fs).inode_bitmap@.update(id, true)
                &&& final(fs).inodes@[id].kind == DiskInodeType::File
                &&& final(fs).inodes@[id].data@ == Seq::<u8>::empty()
                &&& final(fs).inodes@[id].size == 0
                &&& final(fs).inodes@[id].blocks@.len() == 0
                &&& final(fs).inodes@.len() == old(fs).inodes@.len()
                &&& forall|k: int|
                    0 <= k < old(fs).inodes@.len() && k != ROOT_INODE && k != id ==> #[trigger] final(fs).inodes@[k]
                        == old(fs).inodes@[k]
                &&& final(fs).data_bitmap@.len() == old(fs).data_bitmap@.len()
                &&& free_count(final(fs).data_bitmap@) + (blocks_for(DIRENT_SZ * (old(fs).root().len() + 1))
                    - blocks_for(DIRENT_SZ * old(fs).root().len())) == free_count(old(fs).data_bitmap@)
                &&& blocks_for(DIRENT_SZ * (old(fs).root().len() + 1)) == blocks_for(DIRENT_SZ * old(fs).root().len())
                    ==> final(fs).data_bitmap@ == old(fs).data_bitmap@
                &&& blocks_for(DIRENT_SZ * (old(fs).root().len() + 1)) == blocks_for(DIRENT_SZ * old(fs).root().len()) + 1
                    ==> final(fs).data_bitmap@ == old(fs).data_bitmap@.update(first_free(old(fs).data_bitmap@), true)
            },
    {
        if self.find_inode_id(fs, name).is_some() {
            return None;
        }
        let ghost pre = *fs;
        let id = find_free(&fs.inode_bitmap);
        proof {
            lemma_first_free(pre.inode_bitmap@);
            assert(id != ROOT_INODE);
        }
        fs.inode_bitmap.set(id, true);
        let fresh = DiskInode::new_empty(DiskInodeType::File);
        fs.inodes.set(id, fresh);
        proof {
            assert forall|i: int| 0 <= i < fs.inodes@.len() implies (#[trigger] fs.inodes@[i]).wf() by {
                if i != id {
                    assert(fs.inodes@[i] == pre.inodes@[i]);
                }
            }
            assert(fs.root() == pre.root());
            assert forall|k: int| 0 <= k < fs.root().len() implies {
                let x = (#[trigger] fs.root()[k]).1;
                x < fs.inodes@.len() && fs.inode_bitmap@[x as int]
            } by {
                let x = fs.root()[k].1;
                assert(pre.inode_bitmap@[x as int]);
            }
            assert forall|i: int, k: int|
                0 <= i < fs.inodes@.len() && 0 <= k < fs.inodes@[i].blocks@.len() implies (#[trigger] fs.inodes@[i].blocks@[k])
                    < fs.data_bitmap@.len() by {
                if i != id {
                    assert(fs.inodes@[i] == pre.inodes@[i]);
                }
            }
            assert forall|i: int| 0 <= i < fs.inodes@.len() && !#[trigger] fs.inode_bitmap@[i] implies fs.inodes@[i].blocks@.len() == 0 by {
                assert(!pre.inode_bitmap@[i]);
            }
        }
        self.append_entry(fs, name, id as u32);
        Some(Inode::new(id as u32))
    }

    /// Adds `new_name` as a further name of the inode called `old_name`
    /// in this directory, the root.  None when `old_name` is not there.
    pub fn insert_link_entry(&self, fs: &mut EasyFileSystem, old_name: &[u8], new_name: &[u8]) -> (r: Option<Inode>)
        requires
            old(fs).wf(),
            self.inode_id == ROOT_INODE,
            new_name@.len() <= NAME_LENGTH_LIMIT,
            DIRENT_SZ * (old(fs).root().len() + 1) <= INODE_CAPACITY,
            blocks_for(DIRENT_SZ * (old(fs).root().len() + 1)) - blocks_for(DIRENT_SZ * old(fs).root().len())
                <= free_count(old(fs).data_bitmap@),
        ensures
            final(fs).wf(),
            find_entry(old(fs).root(), old_name@) == -1 ==> r is None && *final(fs) == *old(fs),
            find_entry(old(fs).root(), old_name@) >= 0 ==> link_effect(*old(fs), *final(fs), old_name@, new_name@)
                && r == Some(Inode { inode_id: old(fs).root()[find_entry(old(fs).root(), old_name@)].1 }),
    {
        match self.find_inode_id(fs, old_name) {
            None => None,
            Some(id) => {
                proof {
                    lemma_find_entry(fs.root(), old_name@);
                    let k = find_entry(fs.root(), old_name@);
                    assert(fs.root()[k].1 == id);
                }
                let ghost pre = *fs;
                self.append_entry(fs, new_name, id);
                proof {
                    let n = pre.root().len();
                    let grew = blocks_for(DIRENT_SZ * (n + 1)) - blocks_for(DIRENT_SZ * n);
                    assert(fs.root() == pre.root().push((new_name@, id)));
                    assert(fs.inode_bitmap == pre.inode_bitmap);
                    assert(grew == 0 ==> fs.data_bitmap@ == pre.data_bitmap@);
                    assert(grew == 0 ==> fs.inodes@[ROOT_INODE as int].blocks@ == pre.inodes@[ROOT_INODE as int].blocks@);
                }
                Some(Inode::new(id))
            },
        }
    }

    /// Removes the first entry called `name` from this directory, the
    /// root, moving the last entry into its place; the directory gives back
    /// the block it no longer needs.  -1 when there is no such entry.
    pub fn remove_link_entry(&self, fs: &mut EasyFileSystem, name: &[u8]) -> (r: isize)
        requires
            old(fs).wf(),
            self.inode_id == ROOT_INODE,
        ensures
            final(fs).wf(),
            find_entry(old(fs).root(), name@) == -1 ==> r == -1 && *final(fs) == *old(fs),
            find_entry(old(fs).root(), name@) >= 0 ==> r == 0 && unlink_effect(*old(fs), *final(fs), name@),
    {
        let ghost pre = *fs;
        proof {
            lemma_find_entry(pre.root(), name@);
        }
        let idx = match self.find_index(fs, name) {
            Some(i) => i,
            None => {
                return -1;
            },
        };
        let mut d = fs.take_inode(ROOT_INODE as usize);
        let n = d.entries.len();
        d.entries.swap_remove(idx);
        let new_size = (n - 1) * DIRENT_SZ;
        let target = new_size / BLOCK_SZ + if new_size % BLOCK_SZ == 0 { 0 } else { 1 };
        proof {
            assert(target == blocks_for(new_size as int));
            assert(blocks_for(new_size as int) <= blocks_for(DIRENT_SZ * n));
            assert(blocks_for(DIRENT_SZ * n) <= blocks_for(new_size as int) + 1);
            assert forall|k: int| 0 <= k < d.blocks@.len() implies (#[trigger] d.blocks@[k]) < fs.data_bitmap@.len() by {
                assert(pre.inodes@[ROOT_INODE as int].blocks@[k] < pre.data_bitmap@.len());
            }
        }
        fs.shrink_blocks(&mut d, target);
        d.size = new_size as u32;
        fs.inodes.set(ROOT_INODE as usize, d);
        proof {
            assert(fs.root() =~= swap_remove(pre.root(), idx as int));
            assert forall|i: int| 0 <= i < fs.inodes@.len() implies (#[trigger] fs.inodes@[i]).wf() by {
                if i != ROOT_INODE {
                    assert(fs.inodes@[i] == pre.inodes@[i]);
                }
            }
            assert forall|k: int| 0 <= k < fs.root().len() implies {
                let x = (#[trigger] fs.root()[k]).1;
                x < fs.inodes@.len() && fs.inode_bitmap@[x as int]
            } by {
                if k == idx {
                    assert(fs.root()[k] == pre.root()[pre.root().len() - 1]);
                } else {
                    assert(fs.root()[k] == pre.root()[k]);
                }
            }
            assert forall|i: int, k: int|
                0 <= i < fs.inodes@.len() && 0 <= k < fs.inodes@[i].blocks@.len() implies (#[trigger] fs.inodes@[i].blocks@[k])
                    < fs.data_bitmap@.len() by {
                if i != ROOT_INODE {
                    assert(fs.inodes@[i] == pre.inodes@[i]);
                } else {
                    assert(fs.inodes@[i].blocks@[k] == pre.inodes@[i].blocks@[k]);
                }
            }
            assert forall|i: int| 0 <= i < fs.inodes@.len() && !#[trigger] fs.inode_bitmap@[i] implies fs.inodes@[i].blocks@.len() == 0 by {
                assert(fs.inodes@[i] == pre.inodes@[i]);
            }
        }
        0
    }

    /// Number of entries of this directory, the root, that name `inode_id`.
    pub fn get_link_count_from_root(&self, fs: &EasyFileSystem, inode_id: u32) -> (r: u32)
        requires
            fs.wf(),
            self.inode_id == ROOT_INODE,
        ensures
            r == link_count(fs.root(), inode_id),
    {
        let es = &fs.inodes[ROOT_INODE as usize].entries;
        let ghost dir = fs.root();
        proof {
            assert(DIRENT_SZ * dir.len() <= INODE_CAPACITY);
        }
        let mut count: u32 = 0;
        let mut i: usize = 0;
        while i < es.len()
            invariant
                i <= es@.len(),
                dir == entries_view(es@),
                DIRENT_SZ * dir.len() <= INODE_CAPACITY,
                count == link_count(dir.take(i as int), inode_id),
                count <= i,
            decreases es@.len() - i,
        {
            proof {
                assert(dir.take(i as int + 1).drop_last() =~= dir.take(i as int));
            }
            if es[i].inode_id == inode_id {
                count += 1;
            }
            i += 1;
        }
        proof {
            assert(dir.take(i as int) =~= dir);
        }
        count
    }

    /// Writes `buf` at `offset` in this file, growing it, zero filled, to
    /// reach the end of the write; the file takes the blocks it needs.
    /// Returns the number of bytes written.
    pub fn write_at(&self, fs: &mut EasyFileSystem, offset: usize, buf: &[u8]) -> (r: usize)
        requires
            old(fs).wf(),
            (self.inode_id as int) < old(fs).inodes@.len(),
            old(fs).inode_bitmap@[self.inode_id as int],
            old(fs).inodes@[self.inode_id as int].kind == DiskInodeType::File,
            offset + buf@.len() <= INODE_CAPACITY,
            blocks_for(offset + buf@.len()) - old(fs).inodes@[self.inode_id as int].blocks@.len() <= free_count(
                old(fs).data_bitmap@,
            ),
        ensures
            final(fs).wf(),
            r == buf@.len(),
            write_effect(*old(fs), *final(fs), self.inode_id as int, offset as int, buf@),
    {
        let ghost pre = *fs;
        let i = self.inode_id as usize;
        let mut d = fs.take_inode(i);
        let size = d.data.len();
        let end = offset + buf.len();
        let new_len = if end > size { end } else { size };
        let mut data: Vec<u8> = Vec::new();
        let mut k: usize = 0;
        while k < new_len
            invariant
                k <= new_len,
                new_len == written(d.data@, offset as int, buf@).len(),
                size == d.data@.len(),
                end == offset + buf@.len(),
                data@ == written(d.data@, offset as int, buf@).subrange(0, k as int),
            decreases new_len - k,
        {
            let b = if offset <= k && k < end {
                buf[k - offset]
            } else if k < size {
                d.data[k]
            } else {
                0u8
            };
            data.push(b);
            k += 1;
            proof {
                assert(data@ =~= written(d.data@, offset as int, buf@).subrange(0, k as int));
            }
        }
        let target = new_len / BLOCK_SZ + if new_len % BLOCK_SZ == 0 { 0 } else { 1 };
        proof {
            assert(data@ =~= written(d.data@, offset as int, buf@));
            assert(target == blocks_for(new_len as int));
            assert(blocks_for(size as int) <= blocks_for(new_len as int));
            assert forall|j: int| 0 <= j < d.blocks@.len() implies (#[trigger] d.blocks@[j]) < fs.data_bitmap@.len() by {
                assert(pre.inodes@[i as int].blocks@[j] < pre.data_bitmap@.len());
            }
            if end <= size {
                assert(blocks_for(offset + buf@.len()) <= blocks_for(size as int));
            }
        }
        fs.grow_blocks(&mut d, target);
        d.data = data;
        d.size = new_len as u32;
        fs.inodes.set(i, d);
        proof {
            assert forall|x: int| 0 <= x < fs.inodes@.len() implies (#[trigger] fs.inodes@[x]).wf() by {
                if x != i {
                    assert(fs.inodes@[x] == pre.inodes@[x]);
                }
            }
            if i != ROOT_INODE {
                assert(fs.root() == pre.root());
            }
            assert forall|kk: int| 0 <= kk < fs.root().len() implies {
                let x = (#[trigger] fs.root()[kk]).1;
                x < fs.inodes@.len() && fs.inode_bitmap@[x as int]
            } by {
                assert(fs.root()[kk] == pre.root()[kk]);
            }
            assert forall|x: int, j: int|
                0 <= x < fs.inodes@.len() && 0 <= j < fs.inodes@[x].blocks@.len() implies (#[trigger] fs.inodes@[x].blocks@[j])
                    < fs.data_bitmap@.len() by {
                if x != i {
                    assert(fs.inodes@[x] == pre.inodes@[x]);
                }
            }
            assert forall|x: int| 0 <= x < fs.inodes@.len() && !#[trigger] fs.inode_bitmap@[x] implies fs.inodes@[x].blocks@.len() == 0 by {
                if x != i {
                    assert(fs.inodes@[x] == pre.inodes@[x]);
                } else {
                    assert(pre.inodes@[x].blocks@.len() == 0);
                    assert(blocks_for(offset + buf@.len()) <= free_count(pre.data_bitmap@));
                }
            }
        }
        buf.len()
    }

    /// Reads from `offset` of this file into `buf`, as many bytes as
    /// `buf` holds or the file has; returns how many were read.
    pub fn read_at(&self, fs: &EasyFileSystem, offset: usize, buf: &mut Vec<u8>) -> (r: usize)
        requires
            fs.wf(),
            (self.inode_id as int) < fs.inodes@.len(),
        ensures
            final(buf)@.len() == old(buf)@.len(),
            r == read_result(fs.inodes@[self.inode_id as int].data@, offset as int, old(buf)@.len() as int).len(),
            final(buf)@.subrange(0, r as int) == read_result(
                fs.inodes@[self.inode_id as int].data@,
                offset as int,
                old(buf)@.len() as int,
            ),
            final(buf)@.subrange(r as int, final(buf)@.len() as int) == old(buf)@.subrange(r as int, old(buf)@.len() as int),
    {
        let data = &fs.inodes[self.inode_id as usize].data;
        let size = data.len();
        let n: usize = if offset >= size {
            0
        } else if buf.len() > size - offset {
            size - offset
        } else {
            buf.len()
        };
        let mut k: usize = 0;
        while k < n
            invariant
                k <= n,
                n <= buf@.len(),
                offset >= size ==> n == 0,
                offset < size ==> offset + n <= size,
                size == data@.len(),
                buf@.len() == old(buf)@.len(),
                forall|j: int| 0 <= j < k ==> buf@[j] == data@[offset + j],
                forall|j: int| k <= j < buf@.len() ==> buf@[j] == old(buf)@[j],
            decreases n - k,
        {
            buf.set(k, data[offset + k]);
            k += 1;
        }
        proof {
            let want = read_result(data@, offset as int, old(buf)@.len() as int);
            assert(buf@.subrange(0, n as int) =~= want);
            assert(buf@.subrange(n as int, buf@.len() as int) =~= old(buf)@.subrange(n as int, old(buf)@.len() as int));
        }
        n
    }

    /// Gives back every block of this inode and empties it.
    pub fn clear(&self, fs: &mut EasyFileSystem)
        requires
            old(fs).wf(),
            (self.inode_id as int) < old(fs).inodes@.len(),
        ensures
            final(fs).wf(),
            final(fs).inodes@[self.inode_id as int].size == 0,
            final(fs).inodes@[self.inode_id as int].data@ == Seq::<u8>::empty(),
            final(fs).inodes@[self.inode_id as int].dir() == Seq::<(Seq<u8>, u32)>::empty(),
            final(fs).inodes@[self.inode_id as int].kind == old(fs).inodes@[self.inode_id as int].kind,
            final(fs).inodes@.len() == old(fs).inodes@.len(),
            forall|k: int| 0 <= k < old(fs).inodes@.len() && k != self.inode_id ==> #[trigger] final(fs).inodes@[k] == old(fs).inodes@[k],
            final(fs).inode_bitmap == old(fs).inode_bitmap,
            final(fs).data_bitmap@.len() == old(fs).data_bitmap@.len(),
            forall|b: int|
                0 <= b < old(fs).data_bitmap@.len() ==> #[trigger] final(fs).data_bitmap@[b] == if held_in(
                    old(fs).inodes@[self.inode_id as int].blocks@,
                    0,
                    old(fs).inodes@[self.inode_id as int].blocks@.len() as int,
                    b,
                ) {
                    false
                } else {
                    old(fs).data_bitmap@[b]
                },
    {
        let ghost pre = *fs;
        let i = self.inode_id as usize;
        let mut d = fs.take_inode(i);
        proof {
            assert forall|j: int| 0 <= j < d.blocks@.len() implies (#[trigger] d.blocks@[j]) < fs.data_bitmap@.len() by {
                assert(pre.inodes@[i as int].blocks@[j] < pre.data_bitmap@.len());
            }
        }
        fs.shrink_blocks(&mut d, 0);
        let fresh = DiskInode::new_empty(d.kind);
        fs.inodes.set(i, fresh);
        proof {
            assert forall|x: int| 0 <= x < fs.inodes@.len() implies (#[trigger] fs.inodes@[x]).wf() by {
                if x != i {
                    assert(fs.inodes@[x] == pre.inodes@[x]);
                }
            }
            assert forall|kk: int| 0 <= kk < fs.root().len() implies {
                let x = (#[trigger] fs.root()[kk]).1;
                x < fs.inodes@.len() && fs.inode_bitmap@[x as int]
            } by {
                if i != ROOT_INODE {
                    assert(fs.root()[kk] == pre.root()[kk]);
                }
            }
            assert forall|x: int, j: int|
                0 <= x < fs.inodes@.len() && 0 <= j < fs.inodes@[x].blocks@.len() implies (#[trigger] fs.inodes@[x].blocks@[j])
                    < fs.data_bitmap@.len() by {
                if x != i {
                    assert(fs.inodes@[x] == pre.inodes@[x]);
                }
            }
            assert forall|x: int| 0 <= x < fs.inodes@.len() && !#[trigger] fs.inode_bitmap@[x] implies fs.inodes@[x].blocks@.len() == 0 by {
                if x != i {
                    assert(fs.inodes@[x] == pre.inodes@[x]);
                }
            }
        }
    }
}

/// `post` is `pre` after `link(old_name, new_name)` found `old_name`.
pub open spec fn link_effect(pre: EasyFileSystem, post: EasyFileSystem, old_name: Seq<u8>, new_name: Seq<u8>) -> bool {
    let n = pre.root().len();
    let id = pre.root()[find_entry(pre.root(), old_name)].1;
    let grew = blocks_for(DIRENT_SZ * (n + 1)) - blocks_for(DIRENT_SZ * n);
    &&& post.root() == pre.root().push((new_name, id))
    &&& grew <= free_count(pre.data_bitmap@)
    &&& post.inode_bitmap == pre.inode_bitmap
    &&& post.inodes@.len() == pre.inodes@.len()
    &&& forall|k: int| 0 <= k < pre.inodes@.len() && k != ROOT_INODE ==> #[trigger] post.inodes@[k] == pre.inodes@[k]
    &&& grew == 0 ==> post.data_bitmap@ == pre.data_bitmap@
        && post.inodes@[ROOT_INODE as int].blocks@ == pre.inodes@[ROOT_INODE as int].blocks@
    &&& grew == 1 ==> post.data_bitmap@ == pre.data_bitmap@.update(first_free(pre.data_bitmap@), true)
        && post.inodes@[ROOT_INODE as int].blocks@ == pre.inodes@[ROOT_INODE as int].blocks@.push(
        first_free(pre.data_bitmap@) as u32,
    )
}

/// `post` is `pre` after `unlink(name)` found `name`.
pub open spec fn unlink_effect(pre: EasyFileSystem, post: EasyFileSystem, name: Seq<u8>) -> bool {
    let n = pre.root().len();
    let shrank = blocks_for(DIRENT_SZ * n) - blocks_for(DIRENT_SZ * (n - 1));
    let blocks = pre.inodes@[ROOT_INODE as int].blocks@;
    &&& post.root() == swap_remove(pre.root(), find_entry(pre.root(), name))
    &&& post.inode_bitmap == pre.inode_bitmap
    &&& post.inodes@.len() == pre.inodes@.len()
    &&& forall|k: int| 0 <= k < pre.inodes@.len() && k != ROOT_INODE ==> #[trigger] post.inodes@[k] == pre.inodes@[k]
    &&& post.inodes@[ROOT_INODE as int].blocks@ == blocks.subrange(0, blocks.len() - shrank)
    &&& shrank == 0 ==> post.data_bitmap@ == pre.data_bitmap@
    &&& shrank == 1 ==> post.data_bitmap@ == pre.data_bitmap@.update(blocks.last() as int, false)
}

/// `post` is `pre` after writing `buf` at `offset` of file `ino`.
pub open spec fn write_effect(pre: EasyFileSystem, post: EasyFileSystem, ino: int, offset: int, buf: Seq<u8>) -> bool {
    let old_size = pre.inodes@[ino].size as int;
    let new_size = written(pre.inodes@[ino].data@, offset, buf).len() as int;
    &&& post.inodes@[ino].data@ == written(pre.inodes@[ino].data@, offset, buf)
    &&& post.inodes@[ino].size == new_size
    &&& post.inodes@[ino].kind == DiskInodeType::File
    &&& post.inodes@[ino].blocks@.len() == blocks_for(new_size)
    &&& free_count(post.data_bitmap@) + (blocks_for(new_size) - blocks_for(old_size)) == free_count(pre.data_bitmap@)
    &&& post.inodes@.len() == pre.inodes@.len()
    &&& forall|k: int| 0 <= k < pre.inodes@.len() && k != ino ==> #[trigger] post.inodes@[k] == pre.inodes@[k]
    &&& post.inode_bitmap == pre.inode_bitmap
}

/// Reading back, at the same offset, as many bytes as were written gives
/// the bytes written.
pub proof fn lemma_write_then_read(data: Seq<u8>, offset: int, buf: Seq<u8>)
    requires
        0 <= offset,
    ensures
        read_result(written(data, offset, buf), offset, buf.len() as int) == buf,
{
    let w = written(data, offset, buf);
    if buf.len() > 0 {
        assert(read_result(w, offset, buf.len() as int) =~= buf);
    } else {
        assert(read_result(w, offset, 0) =~= buf);
    }
}

/// Linking a name that is not yet in the root directory and unlinking it
/// again leaves the entries, the directory's blocks and both bitmaps as
/// they were.
pub proof fn lemma_link_unlink_identity(
    fs0: EasyFileSystem,
    fs1: EasyFileSystem,
    fs2: EasyFileSystem,
    a: Seq<u8>,
    b: Seq<u8>,
)
    requires
        fs0.wf(),
        find_entry(fs0.root(), a) >= 0,
        find_entry(fs0.root(), b) == -1,
        link_effect(fs0, fs1, a, b),
        unlink_effect(fs1, fs2, b),
    ensures
        fs2.root() == fs0.root(),
        fs2.inodes@[ROOT_INODE as int].blocks@ == fs0.inodes@[ROOT_INODE as int].blocks@,
        fs2.data_bitmap@ == fs0.data_bitmap@,
        fs2.inode_bitmap == fs0.inode_bitmap,
{
    let r0 = fs0.root();
    let n = r0.len() as int;
    lemma_find_entry(r0, a);
    let id = r0[find_entry(r0, a)].1;
    assert(fs1.root().drop_last() =~= r0);
    assert(find_entry(fs1.root(), b) == n);
    assert(swap_remove(fs1.root(), n) =~= r0);
    lemma_dir_blocks_step(n);
    let grew = blocks_for(DIRENT_SZ * (n + 1)) - blocks_for(DIRENT_SZ * n);
    let blocks0 = fs0.inodes@[ROOT_INODE as int].blocks@;
    if grew == 1 {
        let ff = first_free(fs0.data_bitmap@);
        lemma_first_free(fs0.data_bitmap@);
        let blocks1 = fs1.inodes@[ROOT_INODE as int].blocks@;
        assert(fs1.root().len() == n + 1);
        assert(blocks1 == blocks0.push(ff as u32));
        assert(ff >= 0);
        assert(blocks1.last() as int == ff);
        assert(fs2.data_bitmap@ =~= fs0.data_bitmap@);
        assert(fs2.inodes@[ROOT_INODE as int].blocks@ =~= blocks0);
    } else {
        assert(fs2.inodes@[ROOT_INODE as int].blocks@ =~= blocks0);
    }
}

/// One more directory entry needs at most one more block.
proof fn lemma_dir_blocks_step(n: int)
    requires
        n >= 0,
    ensures
        0 <= blocks_for(DIRENT_SZ * (n + 1)) - blocks_for(DIRENT_SZ * n) <= 1,
{
    assert(0 <= (32 * (n + 1) + 511) / 512 - (32 * n + 511) / 512 <= 1) by (nonlinear_arith)
        requires
            n >= 0,
    ;
}

/// Number of block starts (multiples of the block size) in `[s, e)`.
pub open spec fn block_starts(s: int, e: int) -> int
    decreases e - s,
{
    if e <= s {
        0
    } else {
        block_starts(s, e - 1) + if (e - 1) % BLOCK_SZ as int == 0 {
            1int
        } else {
            0int
        }
    }
}

/// Growing a file from `s` to `e` bytes takes one block for each block
/// start that the new bytes reach.
pub proof fn lemma_blocks_per_boundary(s: int, e: int)
    requires
        0 <= s <= e,
    ensures
        blocks_for(e) - blocks_for(s) == block_starts(s, e),
    decreases e - s,
{
    if e > s {
        lemma_blocks_per_boundary(s, e - 1);
        let x = e - 1;
        assert((x + 512) / 512 - (x + 511) / 512 == if x % 512 == 0 { 1int } else { 0int }) by (nonlinear_arith)
            requires
                x >= 0,
        ;
    }
}

/// Every directory's size is a whole number of entries, and every entry
/// of the root names an inode in use.
pub proof fn lemma_directory_well_formed(fs: EasyFileSystem)
    requires
        fs.wf(),
    ensures
        forall|i: int|
            0 <= i < fs.inodes@.len() && (#[trigger] fs.inodes@[i]).kind == DiskInodeType::Directory
                ==> fs.inodes@[i].size % DIRENT_SZ as u32 == 0,
        forall|k: int|
            0 <= k < fs.root().len() ==> (#[trigger] fs.root()[k]).1 < fs.inodes@.len() && fs.inode_bitmap@[fs.root()[k].1 as int],
{
    assert forall|i: int|
        0 <= i < fs.inodes@.len() && (#[trigger] fs.inodes@[i]).kind == DiskInodeType::Directory implies fs.inodes@[i].size
        % DIRENT_SZ as u32 == 0 by {
        assert(fs.inodes@[i].wf());
        let n = fs.inodes@[i].entries@.len() as int;
        assert((32 * n) % 32 == 0) by (nonlinear_arith);
    }
}

pub const O_RDONLY: u32 = 0;
pub const O_WRONLY: u32 = 0x1;
pub const O_RDWR: u32 = 0x2;
pub const O_CREATE: u32 = 0x40;
pub const O_TRUNC: u32 = 0x400;

/// Whether the open flags allow reading and writing.
pub open spec fn access_of(flags: u32) -> (bool, bool) {
    if flags & 3 == 0 {
        (true, false)
    } else if flags & O_WRONLY != 0 {
        (false, true)
    } else {
        (true, true)
    }
}

/// Opens `name` in the root directory.  With `O_CREATE` an existing file
/// is emptied and a missing one created; without it a missing file is
/// not found (none), and `O_TRUNC` empties an existing one.
pub fn open_file(fs: &mut EasyFileSystem, name: &[u8], flags: u32) -> (r: Option<OpenedFile>)
    requires
        old(fs).wf(),
        name@.len() <= NAME_LENGTH_LIMIT,
        free_count(old(fs).inode_bitmap@) > 0,
        old(fs).inodes@.len() <= u32::MAX,
        DIRENT_SZ * (old(fs).root().len() + 1) <= INODE_CAPACITY,
        blocks_for(DIRENT_SZ * (old(fs).root().len() + 1)) - blocks_for(DIRENT_SZ * old(fs).root().len())
            <= free_count(old(fs).data_bitmap@),
    ensures
        final(fs).wf(),
        ({
            let f = find_entry(old(fs).root(), name@);
            let (readable, writable) = access_of(flags);
            if f >= 0 {
                let id = old(fs).root()[f].1;
                &&& r == Some(OpenedFile { inode: Inode { inode_id: id }, readable, writable })
                &&& final(fs).root() == old(fs).root() || id == ROOT_INODE
                &&& (flags & O_CREATE != 0 || flags & O_TRUNC != 0) ==> final(fs).inodes@[id as int].data@ == Seq::<u8>::empty()
                &&& (flags & O_CREATE == 0 && flags & O_TRUNC == 0) ==> *final(fs) == *old(fs)
            } else if flags & O_CREATE != 0 {
                let id = first_free(old(fs).inode_bitmap@);
                &&& r == Some(OpenedFile { inode: Inode { inode_id: id as u32 }, readable, writable })
                &&& final(fs).root() == old(fs).root().push((name@, id as u32))
                &&& final(fs).inodes@[id].data@ == Seq::<u8>::empty()
            } else {
                r is None && *final(fs) == *old(fs)
            }
        }),
{
    let readable;
    let writable;
    if flags & 3 == 0 {
        readable = true;
        writable = false;
    } else if flags & O_WRONLY != 0 {
        readable = false;
        writable = true;
    } else {
        readable = true;
        writable = true;
    }
    let root = Inode::new(ROOT_INODE);
    proof {
        lemma_find_entry(fs.root(), name@);
    }
    match root.find(fs, name) {
        Some(inode) => {
            proof {
                let k = find_entry(fs.root(), name@);
                assert(fs.root()[k].1 < fs.inodes@.len());
            }
            if flags & O_CREATE != 0 || flags & O_TRUNC != 0 {
                inode.clear(fs);
            }
            Some(OpenedFile { inode, readable, writable })
        },
        None => {
            if flags & O_CREATE != 0 {
                match root.create(fs, name) {
                    Some(inode) => Some(OpenedFile { inode, readable, writable }),
                    None => None,
                }
            } else {
                None
            }
        },
    }
}

/// Kind of a file as `fstat` reports it.
#[derive(PartialEq, Eq, Structural, Debug, Clone, Copy)]
pub enum StatMode {
    File,
    Dir,
}

/// What `fstat` reports.
#[derive(PartialEq, Eq, Structural, Debug, Clone, Copy)]
pub struct Stat {
    pub dev: u64,
    pub ino: u64,
    pub mode: StatMode,
    pub nlink: u32,
}

/// Status of `inode`: device 0, its inode number, its kind and the number
/// of root entries naming it.
pub fn sys_fstat(fs: &EasyFileSystem, inode: &Inode) -> (st: Stat)
    requires
        fs.wf(),
        (inode.inode_id as int) < fs.inodes@.len(),
    ensures
        st.dev == 0,
        st.ino == inode.inode_id,
        st.mode == if fs.inodes@[inode.inode_id as int].kind == DiskInodeType::Directory {
            StatMode::Dir
        } else {
            StatMode::File
        },
        st.nlink == link_count(fs.root(), inode.inode_id),
{
    let mode = if inode.get_inode_is_dir(fs) {
        StatMode::Dir
    } else {
        StatMode::File
    };
    let root = Inode::new(ROOT_INODE);
    let nlink = root.get_link_count_from_root(fs, inode.inode_id);
    Stat { dev: 0, ino: inode.inode_id as u64, mode, nlink }
}

} // verus!
