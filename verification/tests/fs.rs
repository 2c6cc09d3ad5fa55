use os::fs::{
    dec_nlink, fill_stat, finish_open, get_nlink, inc_nlink, init_nlink, link_file, link_file_next, open_file,
    unlink_file, unlink_file_next, DirReply, LinkCounts, LinkStep, OSInode, OpenFlags, OpenPlan, Stat,
    StatMode, UnlinkStep, O_CREATE, O_RDWR, O_TRUNC, O_WRONLY, S_IFDIR, S_IFREG,
};

#[test]
fn read_write_of_flags() {
    assert_eq!(OpenFlags::from_bits_truncate(0).read_write(), (true, false));
    assert_eq!(OpenFlags::from_bits_truncate(O_WRONLY).read_write(), (false, true));
    assert_eq!(OpenFlags::from_bits_truncate(O_RDWR).read_write(), (true, true));
    assert_eq!(OpenFlags::from_bits_truncate(O_CREATE | O_WRONLY).read_write(), (false, true));
    assert_eq!(OpenFlags::from_bits_truncate(O_CREATE).read_write(), (true, true));
    assert_eq!(OpenFlags::from_bits_truncate(0x8000).bits, 0);
}

#[test]
fn open_plans() {
    let create = OpenFlags::from_bits_truncate(O_CREATE);
    assert!(open_file(&create, true) == OpenPlan::OpenExisting { clear: true });
    assert!(open_file(&create, false) == OpenPlan::Create);
    let trunc = OpenFlags::from_bits_truncate(O_TRUNC | O_RDWR);
    assert!(open_file(&trunc, true) == OpenPlan::OpenExisting { clear: true });
    let plain = OpenFlags::from_bits_truncate(O_RDWR);
    assert!(open_file(&plain, true) == OpenPlan::OpenExisting { clear: false });
    assert!(open_file(&plain, false) == OpenPlan::Fail);
}

#[test]
fn link_counts_default_to_one() {
    let mut l = LinkCounts::new();
    assert_eq!(get_nlink(&mut l, 7), 1);
    init_nlink(&mut l, 8);
    assert_eq!(get_nlink(&mut l, 8), 1);
    assert_eq!(inc_nlink(&mut l, 8), 2);
    init_nlink(&mut l, 8);
    assert_eq!(get_nlink(&mut l, 8), 2);
}

#[test]
fn link_then_unlink_restores_count() {
    let mut l = LinkCounts::new();
    assert_eq!(inc_nlink(&mut l, 3), 2);
    assert_eq!(inc_nlink(&mut l, 3), 3);
    assert_eq!(dec_nlink(&mut l, 3), 2);
    assert_eq!(get_nlink(&mut l, 3), 2);
    assert_eq!(dec_nlink(&mut l, 3), 1);
    assert_eq!(dec_nlink(&mut l, 3), 0);
    assert_eq!(dec_nlink(&mut l, 3), 0);
}

#[test]
fn stat_reports_kind_and_links() {
    let mut l = LinkCounts::new();
    inc_nlink(&mut l, 4);
    let mut st = Stat { dev: 9, ino: 0, mode: StatMode { bits: 0 }, nlink: 0, pad: [0; 7] };
    assert_eq!(fill_stat(&mut st, 4, false, &mut l), 0);
    assert_eq!(st.dev, 0);
    assert_eq!(st.ino, 4);
    assert_eq!(st.mode.bits, S_IFREG);
    assert_eq!(st.nlink, 2);
    assert_eq!(fill_stat(&mut st, 5, true, &mut l), 0);
    assert_eq!(st.mode.bits, S_IFDIR);
    assert_eq!(st.nlink, 1);
}

#[test]
fn link_to_same_name_fails() {
    assert!(link_file("a", "a") == LinkStep::Finish(false));
    assert!(link_file("a", "b") == LinkStep::FindOld);
}

#[test]
fn link_steps() {
    let mut l = LinkCounts::new();
    let s = link_file("old", "new");
    let s = link_file_next(s, DirReply::Found(Some(12)), &mut l);
    assert!(s == LinkStep::FindNew { inode: 12 });
    let s = link_file_next(s, DirReply::Found(None), &mut l);
    assert!(s == LinkStep::Link { inode: 12 });
    let s = link_file_next(s, DirReply::Done(true), &mut l);
    assert!(s == LinkStep::Finish(true));
    assert_eq!(get_nlink(&mut l, 12), 2);
}

#[test]
fn link_fails_on_missing_old_or_existing_new() {
    let mut l = LinkCounts::new();
    assert!(link_file_next(LinkStep::FindOld, DirReply::Found(None), &mut l) == LinkStep::Finish(false));
    assert!(
        link_file_next(LinkStep::FindNew { inode: 1 }, DirReply::Found(Some(2)), &mut l)
            == LinkStep::Finish(false)
    );
    assert!(link_file_next(LinkStep::Link { inode: 1 }, DirReply::Done(false), &mut l) == LinkStep::Finish(false));
    assert_eq!(get_nlink(&mut l, 1), 1);
}

#[test]
fn unlink_steps() {
    let mut l = LinkCounts::new();
    inc_nlink(&mut l, 5);
    let s = unlink_file();
    assert!(s == UnlinkStep::Find);
    let s = unlink_file_next(s, DirReply::Found(Some(5)), &mut l);
    assert!(s == UnlinkStep::Unlink { inode: 5 });
    let s = unlink_file_next(s, DirReply::Done(true), &mut l);
    assert!(s == UnlinkStep::Finish(true));
    assert_eq!(get_nlink(&mut l, 5), 1);
    assert!(unlink_file_next(UnlinkStep::Find, DirReply::Found(None), &mut l) == UnlinkStep::Finish(false));
}

#[test]
fn opened_files_follow_the_flags_and_start_at_zero() {
    let mut links = LinkCounts::new();
    let wr = OpenFlags::from_bits_truncate(O_WRONLY | O_CREATE);
    let f = finish_open(&wr, Some(7), &mut links).unwrap();
    assert!(f == OSInode { readable: false, writable: true, offset: 0, inode_id: 7 });
    assert!(!f.readable() && f.writable());
    assert_eq!(get_nlink(&mut links, 7), 1);
    let ro = OpenFlags::from_bits_truncate(0);
    let g = finish_open(&ro, Some(8), &mut links).unwrap();
    assert_eq!((g.readable, g.writable, g.offset), (true, false, 0));
    let rw = OpenFlags::from_bits_truncate(O_RDWR);
    assert_eq!(finish_open(&rw, Some(9), &mut links).map(|h| (h.readable, h.writable)), Some((true, true)));
}

#[test]
fn opening_keeps_an_existing_link_count() {
    let mut links = LinkCounts::new();
    inc_nlink(&mut links, 4);
    let f = finish_open(&OpenFlags::from_bits_truncate(O_RDWR), Some(4), &mut links);
    assert!(f.is_some());
    assert_eq!(get_nlink(&mut links, 4), 2);
    assert!(finish_open(&OpenFlags::from_bits_truncate(O_RDWR), None, &mut links).is_none());
}
