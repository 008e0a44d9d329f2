//! The block cache: a bounded set of disk blocks held in memory, written
//! back when they leave the cache or when everything is synced.
use vstd::prelude::*;

verus! {

pub const BLOCK_SIZE: usize = 512;
/// Blocks the cache holds at most.
pub const BLOCK_CACHE_SIZE: usize = 16;

/// The disk: every block's bytes.
pub struct BlockDevice {
    pub blocks: Vec<Vec<u8>>,
}

/// A cached block.
pub struct CacheEntry {
    pub block_id: usize,
    pub data: Vec<u8>,
    /// Changed since it was read from or written to the disk.
    pub modified: bool,
}

/// Cached blocks, oldest first.
pub struct BlockCacheManager {
    pub queue: Vec<CacheEntry>,
}

pub open spec fn disk_view(dev: &BlockDevice) -> Seq<Seq<u8>> {
    dev.blocks@.map_values(|b: Vec<u8>| b@)
}

impl BlockDevice {
    pub open spec fn wf(&self) -> bool {
        forall|i: int| 0 <= i < self.blocks@.len() ==> (#[trigger] self.blocks@[i])@.len() == BLOCK_SIZE
    }

    /// A zeroed disk of `n` blocks.
    pub fn new(n: usize) -> (d: Self)
        ensures
            d.wf(),
            d.blocks@.len() == n,
            forall|i: int, j: int| 0 <= i < n && 0 <= j < BLOCK_SIZE ==> disk_view(&d)[i][j] == 0,
    {
        let mut blocks: Vec<Vec<u8>> = Vec::new();
        let mut i: usize = 0;
        while i < n
            invariant
                i <= n,
                blocks@.len() == i,
                forall|k: int| 0 <= k < i ==> (#[trigger] blocks@[k])@ == Seq::new(BLOCK_SIZE as nat, |j: int| 0u8),
            decreases n - i,
        {
            let mut b: Vec<u8> = Vec::new();
            let mut j: usize = 0;
            while j < BLOCK_SIZE
                invariant
                    j <= BLOCK_SIZE,
                    b@ == Seq::new(j as nat, |k: int| 0u8),
                decreases BLOCK_SIZE - j,
            {
                b.push(0);
                j += 1;
                proof {
                    assert(b@ =~= Seq::new(j as nat, |k: int| 0u8));
                }
            }
            blocks.push(b);
            i += 1;
        }
        BlockDevice { blocks }
    }
}

fn copy_block(b: &Vec<u8>) -> (r: Vec<u8>)
    ensures
        r@ == b@,
{
    let mut out: Vec<u8> = Vec::new();
    let mut i: usize = 0;
    while i < b.len()
        invariant
            i <= b@.len(),
            out@ == b@.subrange(0, i as int),
        decreases b@.len() - i,
    {
        out.push(b[i]);
        i += 1;
        proof {
            assert(out@ =~= b@.subrange(0, i as int));
        }
    }
    proof {
        assert(out@ =~= b@);
    }
    out
}

impl BlockCacheManager {
    /// Position of block `id` in the cache, if it is there.
    pub open spec fn slot(&self, id: int) -> int {
        choose|k: int| 0 <= k < self.queue@.len() && self.queue@[k].block_id == id
    }

    pub open spec fn cached(&self, id: int) -> bool {
        exists|k: int| 0 <= k < self.queue@.len() && #[trigger] self.queue@[k].block_id == id
    }

    /// The contents of every block as the filesystem sees them: the cached
    /// copy where there is one, the disk's otherwise.
    pub open spec fn logical(&self, dev: &BlockDevice) -> Seq<Seq<u8>> {
        Seq::new(
            dev.blocks@.len(),
            |i: int| if self.cached(i) { self.queue@[self.slot(i)].data@ } else { dev.blocks@[i]@ },
        )
    }

    pub open spec fn wf(&self, dev: &BlockDevice) -> bool {
        &&& dev.wf()
        &&& self.queue@.len() <= BLOCK_CACHE_SIZE
        &&& forall|a: int, b: int|
            0 <= a < self.queue@.len() && 0 <= b < self.queue@.len() && a != b ==> #[trigger] self.queue@[a].block_id
                != #[trigger] self.queue@[b].block_id
        &&& forall|k: int|
            0 <= k < self.queue@.len() ==> (#[trigger] self.queue@[k]).block_id < dev.blocks@.len()
                && self.queue@[k].data@.len() == BLOCK_SIZE
        // a block that is not marked changed matches the disk
        &&& forall|k: int|
            0 <= k < self.queue@.len() && !(#[trigger] self.queue@[k]).modified ==> self.queue@[k].data@
                == dev.blocks@[self.queue@[k].block_id as int]@
    }

    /// An empty cache.
    pub fn new() -> (m: Self)
        ensures
            m.queue@.len() == 0,
    {
        BlockCacheManager { queue: Vec::new() }
    }

    proof fn lemma_slot(&self, dev: &BlockDevice, k: int)
        requires
            self.wf(dev),
            0 <= k < self.queue@.len(),
        ensures
            self.cached(self.queue@[k].block_id as int),
            self.slot(self.queue@[k].block_id as int) == k,
    {
        let id = self.queue@[k].block_id as int;
        assert(self.queue@[k].block_id == id);
        let s = self.slot(id);
        if s != k {
            assert(self.queue@[s].block_id != self.queue@[k].block_id);
        }
    }

    /// Brings block `id` into the cache, making room by dropping the oldest
    /// block (written back first if changed); returns its position.
    pub fn get_block_cache(&mut self, dev: &mut BlockDevice, id: usize) -> (k: usize)
        requires
            old(self).wf(old(dev)),
            id < old(dev).blocks@.len(),
        ensures
            final(self).wf(final(dev)),
            final(self).logical(final(dev)) == old(self).logical(old(dev)),
            final(dev).blocks@.len() == old(dev).blocks@.len(),
            k < final(self).queue@.len(),
            final(self).queue@[k as int].block_id == id,
    {
        let ghost view = self.logical(dev);
        let mut i: usize = 0;
        while i < self.queue.len()
            invariant
                i <= self.queue@.len(),
                self.wf(dev),
                self.logical(dev) == view,
                dev.blocks@.len() == old(dev).blocks@.len(),
                view == old(self).logical(old(dev)),
                forall|j: int| 0 <= j < i ==> (#[trigger] self.queue@[j]).block_id != id,
            decreases self.queue@.len() - i,
        {
            if self.queue[i].block_id == id {
                return i;
            }
            i += 1;
        }
        proof {
            if self.cached(id as int) {
                let s = self.slot(id as int);
                assert(self.queue@[s].block_id == id);
            }
        }
        if self.queue.len() == BLOCK_CACHE_SIZE {
            self.evict_oldest(dev);
        }
        let ghost pre_m = *self;
        let data = copy_block(&dev.blocks[id]);
        self.queue.push(CacheEntry { block_id: id, data, modified: false });
        proof {
            let n = pre_m.queue@.len() as int;
            assert forall|a: int, b: int|
                0 <= a < self.queue@.len() && 0 <= b < self.queue@.len() && a != b implies #[trigger] self.queue@[a].block_id
                    != #[trigger] self.queue@[b].block_id by {
                if a < n && b < n {
                    assert(pre_m.queue@[a].block_id != pre_m.queue@[b].block_id);
                } else if a < n {
                    assert(pre_m.queue@[a].block_id == self.queue@[a].block_id);
                } else if b < n {
                    assert(pre_m.queue@[b].block_id == self.queue@[b].block_id);
                }
            }
            assert forall|x: int| 0 <= x < view.len() implies #[trigger] self.logical(dev)[x] == view[x] by {
                assert(view[x] == pre_m.logical(dev)[x]);
                if self.cached(x) {
                    let s = self.slot(x);
                    self.lemma_slot(dev, s);
                    if s < n {
                        pre_m.lemma_slot(dev, s);
                    }
                } else {
                    if pre_m.cached(x) {
                        let s = pre_m.slot(x);
                        assert(self.queue@[s].block_id == x);
                    }
                }
            }
            assert(self.logical(dev) =~= view);
        }
        self.queue.len() - 1
    }

    /// Drops the oldest cached block, writing it back first if changed.
    fn evict_oldest(&mut self, dev: &mut BlockDevice)
        requires
            old(self).wf(old(dev)),
            old(self).queue@.len() > 0,
        ensures
            final(self).wf(final(dev)),
            final(self).logical(final(dev)) == old(self).logical(old(dev)),
            final(dev).blocks@.len() == old(dev).blocks@.len(),
            final(self).queue@.len() + 1 == old(self).queue@.len(),
            forall|x: int| final(self).cached(x) ==> old(self).cached(x),
    {
        let ghost view = self.logical(dev);
        let ghost pre_m = *self;
        let ghost pre_dev = *dev;
        let e = self.queue.remove(0);
        if e.modified {
            dev.blocks.set(e.block_id, e.data);
        }
        proof {
            let n = pre_m.queue@.len() as int;
            assert forall|j: int| 0 <= j < self.queue@.len() implies #[trigger] self.queue@[j] == pre_m.queue@[j + 1] by {}
            assert forall|a: int, b: int|
                0 <= a < self.queue@.len() && 0 <= b < self.queue@.len() && a != b implies #[trigger] self.queue@[a].block_id
                    != #[trigger] self.queue@[b].block_id by {
                assert(pre_m.queue@[a + 1].block_id != pre_m.queue@[b + 1].block_id);
            }
            assert forall|j: int|
                0 <= j < self.queue@.len() && !(#[trigger] self.queue@[j]).modified implies self.queue@[j].data@
                    == dev.blocks@[self.queue@[j].block_id as int]@ by {
                assert(pre_m.queue@[j + 1].block_id != pre_m.queue@[0].block_id);
            }
            assert forall|i: int| 0 <= i < dev.blocks@.len() implies (#[trigger] dev.blocks@[i])@.len() == BLOCK_SIZE by {
                assert(pre_dev.blocks@[i]@.len() == BLOCK_SIZE);
            }
            assert forall|x: int| 0 <= x < view.len() implies #[trigger] self.logical(dev)[x] == view[x] by {
                assert(view[x] == pre_m.logical(&pre_dev)[x]);
                if self.cached(x) {
                    let s = self.slot(x);
                    self.lemma_slot(dev, s);
                    pre_m.lemma_slot(&pre_dev, s + 1);
                    assert(pre_m.queue@[s + 1].block_id != pre_m.queue@[0].block_id);
                } else if x == e.block_id {
                    pre_m.lemma_slot(&pre_dev, 0);
                } else {
                    if pre_m.cached(x) {
                        let s = pre_m.slot(x);
                        assert(s != 0);
                        assert(self.queue@[s - 1].block_id == x);
                    }
                }
            }
            assert(self.logical(dev) =~= view);
            assert forall|x: int| self.cached(x) implies pre_m.cached(x) by {
                let s = self.slot(x);
                assert(pre_m.queue@[s + 1].block_id == x);
            }
        }
    }

    /// Reads `len` bytes at `offset` of block `id`, through the cache.
    pub fn read(&mut self, dev: &mut BlockDevice, id: usize, offset: usize, len: usize) -> (r: Vec<u8>)
        requires
            old(self).wf(old(dev)),
            id < old(dev).blocks@.len(),
            offset + len <= BLOCK_SIZE,
        ensures
            final(self).wf(final(dev)),
            final(self).logical(final(dev)) == old(self).logical(old(dev)),
            r@ == old(self).logical(old(dev))[id as int].subrange(offset as int, offset + len),
    {
        let k = self.get_block_cache(dev, id);
        proof {
            self.lemma_slot(dev, k as int);
        }
        let mut out: Vec<u8> = Vec::new();
        let mut i: usize = 0;
        while i < len
            invariant
                i <= len,
                offset + len <= BLOCK_SIZE,
                k < self.queue@.len(),
                offset + len <= self.queue@[k as int].data@.len(),
                out@ == self.queue@[k as int].data@.subrange(offset as int, offset + i),
            decreases len - i,
        {
            out.push(self.queue[k].data[offset + i]);
            i += 1;
            proof {
                assert(out@ =~= self.queue@[k as int].data@.subrange(offset as int, offset + i));
            }
        }
        out
    }

    /// Writes `bytes` at `offset` of block `id`, through the cache; the
    /// block reaches the disk when it leaves the cache or on `sync_all`.
    pub fn modify(&mut self, dev: &mut BlockDevice, id: usize, offset: usize, bytes: &[u8])
        requires
            old(self).wf(old(dev)),
            id < old(dev).blocks@.len(),
            offset + bytes@.len() <= BLOCK_SIZE,
        ensures
            final(self).wf(final(dev)),
            final(self).logical(final(dev)) == old(self).logical(old(dev)).update(
                id as int,
                old(self).logical(old(dev))[id as int].subrange(0, offset as int) + bytes@
                    + old(self).logical(old(dev))[id as int].subrange(offset + bytes@.len(), BLOCK_SIZE as int),
            ),
    {
        let ghost view = self.logical(dev);
        let k = self.get_block_cache(dev, id);
        let ghost pre_m = *self;
        proof {
            self.lemma_slot(dev, k as int);
        }
        let mut e = CacheEntry { block_id: 0, data: Vec::new(), modified: false };
        std::mem::swap(&mut e, &mut self.queue[k]);
        let ghost start = e.data@;
        let mut i: usize = 0;
        while i < bytes.len()
            invariant
                i <= bytes@.len(),
                offset + bytes@.len() <= BLOCK_SIZE,
                e.block_id == id,
                k < self.queue@.len(),
                self.queue@.len() == pre_m.queue@.len(),
                forall|j: int| 0 <= j < self.queue@.len() && j != k ==> #[trigger] self.queue@[j] == pre_m.queue@[j],
                start.len() == BLOCK_SIZE,
                e.data@.len() == BLOCK_SIZE,
                forall|j: int| 0 <= j < offset ==> #[trigger] e.data@[j] == start[j],
                forall|j: int| offset <= j < offset + i ==> #[trigger] e.data@[j] == bytes@[j - offset],
                forall|j: int| offset + i <= j < BLOCK_SIZE ==> #[trigger] e.data@[j] == start[j],
            decreases bytes@.len() - i,
        {
            e.data.set(offset + i, bytes[i]);
            i += 1;
        }
        e.modified = true;
        self.queue.set(k, e);
        proof {
            let want = start.subrange(0, offset as int) + bytes@ + start.subrange(offset + bytes@.len(), BLOCK_SIZE as int);
            assert(self.queue@[k as int].data@ =~= want);
            assert forall|a: int, b: int|
                0 <= a < self.queue@.len() && 0 <= b < self.queue@.len() && a != b implies #[trigger] self.queue@[a].block_id
                    != #[trigger] self.queue@[b].block_id by {
                assert(pre_m.queue@[a].block_id != pre_m.queue@[b].block_id);
            }
            assert forall|j: int|
                0 <= j < self.queue@.len() && !(#[trigger] self.queue@[j]).modified implies self.queue@[j].data@
                    == dev.blocks@[self.queue@[j].block_id as int]@ by {}
            assert forall|x: int| 0 <= x < view.len() implies #[trigger] self.logical(dev)[x] == view.update(id as int, want)[x] by {
                if self.cached(x) {
                    let s = self.slot(x);
                    self.lemma_slot(dev, s);
                    pre_m.lemma_slot(dev, s);
                } else {
                    if pre_m.cached(x) {
                        let s = pre_m.slot(x);
                        assert(self.queue@[s].block_id == x);
                    }
                }
            }
            assert(self.logical(dev) =~= view.update(id as int, want));
        }
    }

    /// Writes every changed block back to the disk.
    pub fn sync_all(&mut self, dev: &mut BlockDevice)
        requires
            old(self).wf(old(dev)),
        ensures
            final(self).wf(final(dev)),
            final(self).logical(final(dev)) == old(self).logical(old(dev)),
            disk_view(final(dev)) == old(self).logical(old(dev)),
    {
        let ghost view = self.logical(dev);
        let mut k: usize = 0;
        while k < self.queue.len()
            invariant
                k <= self.queue@.len(),
                self.wf(dev),
                self.logical(dev) == view,
                dev.blocks@.len() == view.len(),
                forall|j: int| 0 <= j < k ==> !(#[trigger] self.queue@[j]).modified,
            decreases self.queue@.len() - k,
        {
            if self.queue[k].modified {
                let id = self.queue[k].block_id;
                let ghost pre_q = self.queue@;
                let ghost pre_d = dev.blocks@;
                let ghost pre_m = *self;
                let ghost pre_dev = *dev;
                let data = copy_block(&self.queue[k].data);
                dev.blocks.set(id, data);
                let mut e = CacheEntry { block_id: 0, data: Vec::new(), modified: false };
                std::mem::swap(&mut e, &mut self.queue[k]);
                e.modified = false;
                self.queue.set(k, e);
                proof {
                    assert forall|a: int, b: int|
                        0 <= a < self.queue@.len() && 0 <= b < self.queue@.len() && a != b implies #[trigger] self.queue@[a].block_id
                            != #[trigger] self.queue@[b].block_id by {
                        assert(pre_q[a].block_id != pre_q[b].block_id);
                    }
                    assert forall|j: int|
                        0 <= j < self.queue@.len() && !(#[trigger] self.queue@[j]).modified implies self.queue@[j].data@
                            == dev.blocks@[self.queue@[j].block_id as int]@ by {
                        if j != k {
                            assert(pre_q[j].block_id != pre_q[k as int].block_id);
                        }
                    }
                    assert forall|i: int| 0 <= i < dev.blocks@.len() implies (#[trigger] dev.blocks@[i])@.len() == BLOCK_SIZE by {}
                    assert forall|i: int| 0 <= i < view.len() implies #[trigger] self.logical(dev)[i] == view[i] by {
                        assert(view[i] == pre_m.logical(&pre_dev)[i]);
                        if self.cached(i) {
                            let s = self.slot(i);
                            self.lemma_slot(dev, s);
                            assert(pre_m.queue@[s].block_id == i);
                            pre_m.lemma_slot(&pre_dev, s);
                            assert(self.queue@[s].data@ == pre_q[s].data@);
                        } else {
                            if pre_m.cached(i) {
                                let s = pre_m.slot(i);
                                assert(self.queue@[s].block_id == i);
                            }
                            if i == id {
                                assert(self.queue@[k as int].block_id == i);
                            }
                        }
                    }
                    assert(self.logical(dev) =~= view);
                }
            }
            k += 1;
        }
        proof {
            assert forall|i: int| 0 <= i < view.len() implies #[trigger] disk_view(dev)[i] == view[i] by {
                if self.cached(i) {
                    let s = self.slot(i);
                    assert(!self.queue@[s].modified);
                }
            }
            assert(disk_view(dev) =~= view);
        }
    }
}

/// Once everything is synced, mounting the disk afresh (with an empty
/// cache) shows exactly what the filesystem saw before.
pub proof fn lemma_sync_then_fresh_mount(view: Seq<Seq<u8>>, dev: &BlockDevice, fresh: &BlockCacheManager)
    requires
        dev.wf(),
        disk_view(dev) == view,
        fresh.queue@.len() == 0,
    ensures
        fresh.logical(dev) == view,
{
    assert(fresh.logical(dev) =~= view);
}

} // verus!
