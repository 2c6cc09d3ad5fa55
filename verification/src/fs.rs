//! File-system bookkeeping of the kernel: open flags, hard-link counts, `stat`
//! records, and the decisions of opening, linking and unlinking files. The
//! directory itself is reached by the caller, which hands each answer back.
use vstd::prelude::*;
use std::collections::BTreeMap;
use vstd::string::StringSliceAdditionalSpecFns;

verus! {

/// Read only (no flag set).
pub const O_RDONLY: u32 = 0;

/// Write only.
pub const O_WRONLY: u32 = 1;

/// Read and write.
pub const O_RDWR: u32 = 2;

/// Create the file when it does not exist.
pub const O_CREATE: u32 = 512;

/// Truncate the file to length 0.
pub const O_TRUNC: u32 = 1024;

/// The flags of the `open` system call, ORed together.
#[derive(Clone, Copy, PartialEq, Eq, Structural)]
pub struct OpenFlags {
    pub bits: u32,
}

impl OpenFlags {
    /// The flags among the known ones that `bits` sets.
    pub fn from_bits_truncate(bits: u32) -> (r: Self)
        ensures
            r.bits == bits & (O_WRONLY | O_RDWR | O_CREATE | O_TRUNC),
    {
        OpenFlags { bits: bits & (O_WRONLY | O_RDWR | O_CREATE | O_TRUNC) }
    }

    /// Whether no flag is set.
    pub fn is_empty(&self) -> (r: bool)
        ensures
            r == (self.bits == 0),
    {
        self.bits == 0
    }

    /// Whether every flag of `other` is set.
    pub fn contains(&self, other: u32) -> (r: bool)
        ensures
            r == (self.bits & other == other),
    {
        self.bits & other == other
    }

    /// (readable, writable): read only when no flag is set, write only when
    /// `O_WRONLY` is set, and both otherwise. Other flags are not checked.
    pub fn read_write(&self) -> (r: (bool, bool))
        ensures
            r == access_of(self.bits),
    {
        if self.is_empty() {
            (true, false)
        } else if self.contains(O_WRONLY) {
            (false, true)
        } else {
            (true, true)
        }
    }
}

/// (readable, writable) for the given open flags: read only when none is set,
/// write only when `O_WRONLY` is set, and both otherwise.
pub open spec fn access_of(bits: u32) -> (bool, bool) {
    if bits == 0 {
        (true, false)
    } else if bits & O_WRONLY == O_WRONLY {
        (false, true)
    } else {
        (true, true)
    }
}

/// The access mode of an open file follows two flag bits alone: it can be read
/// exactly when `O_WRONLY` is not set, and written exactly when some flag is set;
/// `O_CREATE` and `O_TRUNC` do not change what a file may be used for.
pub proof fn lemma_access_of_flags(bits: u32)
    ensures
        access_of(bits).0 == (bits & O_WRONLY == 0),
        access_of(bits).1 == (bits != 0),
        access_of(bits | O_TRUNC) == access_of(bits) || bits == 0,
        access_of(bits | O_CREATE) == access_of(bits) || bits == 0,
{
    assert((bits & 1u32 == 1u32) <==> !(bits & 1u32 == 0u32)) by (bit_vector);
    assert(bits == 0u32 ==> bits & 1u32 == 0u32) by (bit_vector);
    assert((bits | 1024u32) & 1u32 == bits & 1u32) by (bit_vector);
    assert((bits | 512u32) & 1u32 == bits & 1u32) by (bit_vector);
    assert((bits | 1024u32) != 0u32) by (bit_vector);
    assert((bits | 512u32) != 0u32) by (bit_vector);
    assert(((bits | 1024u32) & 1u32 == 1u32) <==> !((bits | 1024u32) & 1u32 == 0u32)) by (bit_vector);
    assert(((bits | 512u32) & 1u32 == 1u32) <==> !((bits | 512u32) & 1u32 == 0u32)) by (bit_vector);
}

/// Hard-link counts by inode number. An inode that was never counted has one link.
pub struct LinkCounts {
    counts: BTreeMap<u32, u32>,
}

impl LinkCounts {
    /// The recorded counts.
    pub closed spec fn view(&self) -> Map<u32, u32> {
        self.counts@
    }

    /// The number of links of an inode.
    pub open spec fn nlink(&self, inode_id: u32) -> u32 {
        if self@.contains_key(inode_id) {
            self@[inode_id]
        } else {
            1
        }
    }

    /// No counts recorded.
    pub fn new() -> (r: Self)
        ensures
            r@ == Map::<u32, u32>::empty(),
    {
        LinkCounts { counts: BTreeMap::new() }
    }

    fn get_count(&self, inode_id: u32) -> (r: u32)
        ensures
            r == self.nlink(inode_id),
    {
        match self.counts.get(&inode_id) {
            Some(c) => *c,
            None => 1,
        }
    }

    fn set_count(&mut self, inode_id: u32, count: u32)
        ensures
            final(self)@ == old(self)@.insert(inode_id, count),
    {
        self.counts.insert(inode_id, count);
    }
}

/// Start counting an inode at one link, unless it is counted already.
pub fn init_nlink(links: &mut LinkCounts, inode_id: u32)
    ensures
        final(links)@ == old(links)@.insert(inode_id, old(links).nlink(inode_id)),
{
    let c = links.get_count(inode_id);
    links.set_count(inode_id, c);
}

/// One more link to an inode. Returns the new count.
pub fn inc_nlink(links: &mut LinkCounts, inode_id: u32) -> (r: u32)
    requires
        old(links).nlink(inode_id) < u32::MAX,
    ensures
        r == old(links).nlink(inode_id) + 1,
        final(links)@ == old(links)@.insert(inode_id, r),
{
    let c = links.get_count(inode_id);
    links.set_count(inode_id, c + 1);
    c + 1
}

/// One link fewer to an inode, not below zero. Returns the new count.
pub fn dec_nlink(links: &mut LinkCounts, inode_id: u32) -> (r: u32)
    ensures
        r == (if old(links).nlink(inode_id) > 0 { old(links).nlink(inode_id) - 1 } else { 0 }),
        final(links)@ == old(links)@.insert(inode_id, r),
{
    let c = links.get_count(inode_id);
    let d = if c > 0 { c - 1 } else { c };
    links.set_count(inode_id, d);
    d
}

/// The number of links of an inode; an inode seen for the first time is recorded
/// with one link.
pub fn get_nlink(links: &mut LinkCounts, inode_id: u32) -> (r: u32)
    ensures
        r == old(links).nlink(inode_id),
        final(links)@ == old(links)@.insert(inode_id, r),
{
    let c = links.get_count(inode_id);
    links.set_count(inode_id, c);
    c
}

/// Adding a link and removing it again leaves the count of the inode as it was.
pub proof fn lemma_link_then_unlink(before: LinkCounts, linked: LinkCounts, after: LinkCounts, inode_id: u32)
    requires
        before.nlink(inode_id) < u32::MAX,
        linked@ == before@.insert(inode_id, (before.nlink(inode_id) + 1) as u32),
        after@ == linked@.insert(
            inode_id,
            if linked.nlink(inode_id) > 0 { (linked.nlink(inode_id) - 1) as u32 } else { 0 },
        ),
    ensures
        after.nlink(inode_id) == before.nlink(inode_id),
        forall|other: u32| other != inode_id ==> #[trigger] after.nlink(other) == before.nlink(other),
{
}

/// A directory.
pub const S_IFDIR: u32 = 0o040000;

/// A regular file.
pub const S_IFREG: u32 = 0o100000;

/// The kind of an inode.
#[derive(Clone, Copy, PartialEq, Eq, Structural)]
pub struct StatMode {
    pub bits: u32,
}

/// What `fstat` reports about a file.
pub struct Stat {
    /// Device number of the file system.
    pub dev: u64,
    /// Inode number.
    pub ino: u64,
    /// Kind of inode.
    pub mode: StatMode,
    /// Number of hard links.
    pub nlink: u32,
    /// Unused.
    pub pad: [u64; 7],
}

/// Fill in the status of inode `inode_id`: device 0, its number, directory or
/// regular file, and its link count. Returns 0.
pub fn fill_stat(st: &mut Stat, inode_id: u32, is_dir: bool, links: &mut LinkCounts) -> (r: isize)
    ensures
        r == 0,
        final(st).dev == 0,
        final(st).ino == inode_id as u64,
        final(st).mode.bits == if is_dir { S_IFDIR } else { S_IFREG },
        final(st).nlink == old(links).nlink(inode_id),
        final(st).pad == old(st).pad,
        final(links)@ == old(links)@.insert(inode_id, old(links).nlink(inode_id)),
{
    st.dev = 0;
    st.ino = inode_id as u64;
    st.mode = if is_dir { StatMode { bits: S_IFDIR } } else { StatMode { bits: S_IFREG } };
    st.nlink = get_nlink(links, inode_id);
    0
}

/// What opening a file comes down to.
#[derive(Clone, Copy, PartialEq, Eq, Structural)]
pub enum OpenPlan {
    /// Open the file that exists, emptying it first when `clear`.
    OpenExisting { clear: bool },
    /// Create the file (which fails when it cannot be created).
    Create,
    /// Fail: the file does not exist and may not be created.
    Fail,
}

/// How `open` treats a file that does (`exists`) or does not exist: with
/// `O_CREATE` an existing file is emptied and opened and a missing one is created;
/// without it an existing file is opened (emptied with `O_TRUNC`) and a missing one
/// fails. Every opened file starts being link-counted.
pub fn open_file(flags: &OpenFlags, exists: bool) -> (r: OpenPlan)
    ensures
        r == (if flags.bits & O_CREATE == O_CREATE {
            if exists { (OpenPlan::OpenExisting { clear: true }) } else { OpenPlan::Create }
        } else if exists {
            (OpenPlan::OpenExisting { clear: flags.bits & O_TRUNC == O_TRUNC })
        } else {
            OpenPlan::Fail
        }),
{
    if flags.contains(O_CREATE) {
        if exists {
            OpenPlan::OpenExisting { clear: true }
        } else {
            OpenPlan::Create
        }
    } else if exists {
        OpenPlan::OpenExisting { clear: flags.contains(O_TRUNC) }
    } else {
        OpenPlan::Fail
    }
}

/// A file opened in the file system: whether it may be read and written, the offset
/// of the next read or write, and the inode it reaches.
#[derive(Clone, Copy, PartialEq, Eq, Structural)]
pub struct OSInode {
    pub readable: bool,
    pub writable: bool,
    pub offset: usize,
    pub inode_id: u32,
}

impl OSInode {
    /// An open file of inode `inode_id`, at offset 0.
    pub fn new(readable: bool, writable: bool, inode_id: u32) -> (r: Self)
        ensures
            r == (OSInode { readable, writable, offset: 0, inode_id }),
    {
        OSInode { readable, writable, offset: 0, inode_id }
    }

    /// Whether the file may be read.
    pub fn readable(&self) -> (r: bool)
        ensures
            r == self.readable,
    {
        self.readable
    }

    /// Whether the file may be written.
    pub fn writable(&self) -> (r: bool)
        ensures
            r == self.writable,
    {
        self.writable
    }
}

/// The file that `open` hands out once the directory has answered: `inode` is the
/// inode found (and emptied) or created as the plan of `open_file` said, or nothing
/// when the file does not exist or could not be created. The file may be read and
/// written as the flags say and starts at offset 0, and its inode starts being
/// link-counted; without an inode nothing is opened and no count changes.
pub fn finish_open(flags: &OpenFlags, inode: Option<u32>, links: &mut LinkCounts) -> (r: Option<OSInode>)
    ensures
        inode.is_none() ==> r.is_none() && final(links)@ == old(links)@,
        inode matches Some(id) ==> {
            &&& r == Some(OSInode {
                readable: access_of(flags.bits).0,
                writable: access_of(flags.bits).1,
                offset: 0,
                inode_id: id,
            })
            &&& final(links)@ == old(links)@.insert(id, old(links).nlink(id))
        },
        r matches Some(f) ==> f.readable == (flags.bits & O_WRONLY == 0) && f.writable == (flags.bits != 0),
{
    proof {
        lemma_access_of_flags(flags.bits);
    }
    let (readable, writable) = flags.read_write();
    match inode {
        Some(id) => {
            init_nlink(links, id);
            Some(OSInode::new(readable, writable, id))
        },
        None => None,
    }
}

/// Whether two names are the same.
pub fn same_name(a: &str, b: &str) -> (r: bool)
    ensures
        r == (a.spec_bytes() == b.spec_bytes()),
{
    let x = a.as_bytes();
    let y = b.as_bytes();
    if x.len() != y.len() {
        return false;
    }
    let mut i: usize = 0;
    while i < x.len()
        invariant
            x@ == a.spec_bytes(),
            y@ == b.spec_bytes(),
            x@.len() == y@.len(),
            i <= x@.len(),
            forall|k: int| 0 <= k < i ==> x@[k] == y@[k],
        decreases x@.len() - i,
    {
        if x[i] != y[i] {
            return false;
        }
        i = i + 1;
    }
    proof {
        assert(x@ =~= y@);
    }
    true
}

/// What making a hard link asks of the directory next, or its outcome.
#[derive(Clone, Copy, PartialEq, Eq, Structural)]
pub enum LinkStep {
    /// Look up the existing name.
    FindOld,
    /// Look up the new name; the existing name has inode `inode`.
    FindNew { inode: u32 },
    /// Add the new name for inode `inode`.
    Link { inode: u32 },
    /// Done: whether the link was made.
    Finish(bool),
}

/// What the directory answered.
#[derive(Clone, Copy, PartialEq, Eq, Structural)]
pub enum DirReply {
    /// A lookup: the inode of the name, if present.
    Found(Option<u32>),
    /// Adding or removing a name: whether it succeeded.
    Done(bool),
}

/// The first step of linking `new` to the file `old`: fail when the names are the
/// same, else look up `old`.
pub fn link_file(old: &str, new: &str) -> (r: LinkStep)
    ensures
        r == if old.spec_bytes() == new.spec_bytes() { LinkStep::Finish(false) } else { LinkStep::FindOld },
{
    if same_name(old, new) {
        LinkStep::Finish(false)
    } else {
        LinkStep::FindOld
    }
}

/// The next step of linking, given the directory's answer to the current one: a
/// missing old name, an existing new name, or a failed link ends in failure; a made
/// link counts one more link of the inode and ends in success.
pub fn link_file_next(step: LinkStep, reply: DirReply, links: &mut LinkCounts) -> (r: LinkStep)
    requires
        step matches LinkStep::Link { inode } ==> old(links).nlink(inode) < u32::MAX,
    ensures
        (match (step, reply) {
            (LinkStep::FindOld, DirReply::Found(Some(id))) => r == (LinkStep::FindNew { inode: id }),
            (LinkStep::FindNew { inode }, DirReply::Found(None)) => r == (LinkStep::Link { inode }),
            (LinkStep::Link { inode }, DirReply::Done(true)) => r == LinkStep::Finish(true),
            (LinkStep::Finish(done), _) => r == LinkStep::Finish(done),
            _ => r == LinkStep::Finish(false),
        }),
        (match (step, reply) {
            (LinkStep::Link { inode }, DirReply::Done(true)) => final(links)@ == old(links)@.insert(
                inode,
                (old(links).nlink(inode) + 1) as u32,
            ),
            _ => final(links)@ == old(links)@,
        }),
{
    match step {
        LinkStep::FindOld => match reply {
            DirReply::Found(Some(id)) => LinkStep::FindNew { inode: id },
            _ => LinkStep::Finish(false),
        },
        LinkStep::FindNew { inode } => match reply {
            DirReply::Found(None) => LinkStep::Link { inode },
            _ => LinkStep::Finish(false),
        },
        LinkStep::Link { inode } => match reply {
            DirReply::Done(true) => {
                inc_nlink(links, inode);
                LinkStep::Finish(true)
            },
            _ => LinkStep::Finish(false),
        },
        LinkStep::Finish(done) => LinkStep::Finish(done),
    }
}

/// What removing a name asks of the directory next, or its outcome.
#[derive(Clone, Copy, PartialEq, Eq, Structural)]
pub enum UnlinkStep {
    /// Look up the name.
    Find,
    /// Remove the name, which has inode `inode`.
    Unlink { inode: u32 },
    /// Done: whether the name was removed.
    Finish(bool),
}

/// The first step of removing a name: look it up.
pub fn unlink_file() -> (r: UnlinkStep)
    ensures
        r == UnlinkStep::Find,
{
    UnlinkStep::Find
}

/// The next step of removing a name: a missing name or a failed removal ends in
/// failure; a removal counts one link fewer of the inode and ends in success.
pub fn unlink_file_next(step: UnlinkStep, reply: DirReply, links: &mut LinkCounts) -> (r: UnlinkStep)
    ensures
        (match (step, reply) {
            (UnlinkStep::Find, DirReply::Found(Some(id))) => r == (UnlinkStep::Unlink { inode: id }),
            (UnlinkStep::Unlink { inode }, DirReply::Done(true)) => r == UnlinkStep::Finish(true),
            (UnlinkStep::Finish(done), _) => r == UnlinkStep::Finish(done),
            _ => r == UnlinkStep::Finish(false),
        }),
        (match (step, reply) {
            (UnlinkStep::Unlink { inode }, DirReply::Done(true)) => final(links)@ == old(links)@.insert(
                inode,
                if old(links).nlink(inode) > 0 { (old(links).nlink(inode) - 1) as u32 } else { 0 },
            ),
            _ => final(links)@ == old(links)@,
        }),
{
    match step {
        UnlinkStep::Find => match reply {
            DirReply::Found(Some(id)) => UnlinkStep::Unlink { inode: id },
            _ => UnlinkStep::Finish(false),
        },
        UnlinkStep::Unlink { inode } => match reply {
            DirReply::Done(true) => {
                dec_nlink(links, inode);
                UnlinkStep::Finish(true)
            },
            _ => UnlinkStep::Finish(false),
        },
        UnlinkStep::Finish(done) => UnlinkStep::Finish(done),
    }
}

} // verus!
