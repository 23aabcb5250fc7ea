use scheme_io::disk::{Disk, Request};
use scheme_io::display::{Display, DisplayResource, DisplayScheme};
use scheme_io::extent::Extent;
use scheme_io::key::Key;
use scheme_io::resource::{ResourceSeek, VecResource};
use scheme_io::time::Duration;

#[test]
fn duration_new_carries_whole_seconds_up() {
    let d = Duration::new(0, 1_500_000_000);
    assert_eq!(d.secs, 1);
    assert_eq!(d.nanos, 500_000_000);
}

#[test]
fn duration_new_reconciles_signs() {
    // A positive nanosecond part beside negative seconds moves up.
    let d = Duration::new(-1, 500_000_000);
    assert_eq!(d.secs, 0);
    assert_eq!(d.nanos, -500_000_000);
    // A negative nanosecond part beside positive seconds borrows down.
    let d = Duration::new(2, -500_000_000);
    assert_eq!(d.secs, 1);
    assert_eq!(d.nanos, 500_000_000);
}

#[test]
fn duration_add_and_sub() {
    let a = Duration::new(1, 800_000_000);
    let b = Duration::new(0, 300_000_000);
    let s = a.add(b);
    assert_eq!(s.secs, 2);
    assert_eq!(s.nanos, 100_000_000);
    let d = a.sub(b);
    assert_eq!(d.secs, 1);
    assert_eq!(d.nanos, 500_000_000);
}

#[test]
fn duration_equality_is_by_total_span() {
    let a = Duration { secs: 1, nanos: 0 };
    let b = Duration::new(0, 1_000_000_000);
    assert!(a == b);
    let c = Duration { secs: 1, nanos: 1 };
    assert!(a != c);
}

#[test]
fn duration_ordering() {
    let a = Duration::new(1, 0);
    let b = Duration::new(0, 999_999_999);
    assert!(b < a);
    assert!(a > b);
    assert!(a >= Duration { secs: 0, nanos: 1_000_000_000 });
}

#[test]
fn key_events_compare() {
    assert_eq!(Key::Char('x'), Key::Char('x'));
    assert!(Key::Char('x') != Key::Char('y'));
    assert_eq!(Key::Unknown(3), Key::Unknown(3));
    assert!(Key::Backspace != Key::Escape);
}

#[test]
fn display_write_advances_and_clips() {
    let mut scheme = DisplayScheme;
    let mut d = scheme.open(Box::new(Display::new(8)));
    let n = d.write(&[1, 2, 3]).unwrap();
    assert_eq!(n, 3);
    assert_eq!(d.seek, 3);
    let n = d.write(&[9; 10]).unwrap();
    assert_eq!(n, 5);
    assert_eq!(d.seek, 8);
    assert_eq!(d.display.offscreen, vec![1, 2, 3, 9, 9, 9, 9, 9]);
    // Nothing shows until the flip.
    assert_eq!(d.display.onscreen, vec![0; 8]);
    assert!(d.sync());
    assert_eq!(d.display.onscreen, vec![1, 2, 3, 9, 9, 9, 9, 9]);
}

#[test]
fn display_seek_clamps_at_both_ends() {
    let mut scheme = DisplayScheme;
    let mut d = scheme.open(Box::new(Display::new(8)));
    assert_eq!(d.seek(ResourceSeek::Start(100)).unwrap(), 8);
    assert_eq!(d.seek(ResourceSeek::Current(-100)).unwrap(), 0);
    assert_eq!(d.seek(ResourceSeek::End(-3)).unwrap(), 5);
}

#[test]
fn display_read_and_dup_are_refused() {
    let mut scheme = DisplayScheme;
    let mut d = scheme.open(Box::new(Display::new(4)));
    let mut buf = vec![0u8; 4];
    assert!(d.read(&mut buf).is_none());
    assert!(d.dup().is_none());
    assert_eq!(d.url(), b"display://".to_vec());
    assert_eq!(scheme.scheme(), "display");
}

#[test]
fn vec_resource_reads_and_seeks() {
    let mut v = VecResource::new(b"abcdef".to_vec());
    let mut buf = vec![0u8; 4];
    assert_eq!(v.read(&mut buf).unwrap(), 4);
    assert_eq!(buf, b"abcd".to_vec());
    assert_eq!(v.read(&mut buf).unwrap(), 2);
    assert_eq!(&buf[..2], b"ef");
    assert_eq!(v.read(&mut buf).unwrap(), 0);
    assert_eq!(v.seek(ResourceSeek::Start(2)).unwrap(), 2);
    assert_eq!(v.seek(ResourceSeek::End(100)).unwrap(), 6);
    assert_eq!(v.seek(ResourceSeek::Current(-100)).unwrap(), 0);
}

#[test]
fn disk_requests_complete_in_order() {
    let mut disk = Disk::new(vec![0u8; 4 * 512], 14);
    disk.request(Request { block: 1, sectors: 1, is_read: false, data: vec![7u8; 512] });
    disk.request(Request { block: 0, sectors: 1, is_read: true, data: Vec::new() });
    let first = disk.on_poll().unwrap();
    assert!(!first.is_read);
    assert_eq!(first.block, 1);
    let second = disk.on_poll().unwrap();
    assert!(second.is_read);
    assert_eq!(second.data, vec![0u8; 512]);
    assert!(disk.on_poll().is_none());
    assert_eq!(&disk.bytes[512..1024], &[7u8; 512][..]);
}

#[test]
fn disk_extent_write_then_read_round_trips() {
    let mut disk = Disk::new(vec![0u8; 8 * 512], 14);
    let ext = Extent { block: 2, length: 700 };
    let mut payload = vec![3u8; 700];
    payload.resize(2 * 512, 0);
    disk.write_extent(ext, &payload);
    let back = disk.read_extent(ext);
    assert_eq!(back.len(), 700);
    assert_eq!(back, vec![3u8; 700]);
}

#[test]
fn extent_sector_rounding() {
    assert_eq!(Extent { block: 1, length: 0 }.sectors(), 0);
    assert_eq!(Extent { block: 1, length: 1 }.sectors(), 1);
    assert_eq!(Extent { block: 1, length: 512 }.sectors(), 1);
    assert_eq!(Extent { block: 1, length: 513 }.sectors(), 2);
    assert!(Extent { block: 0, length: 5 }.is_empty());
    assert!(Extent { block: 5, length: 0 }.is_empty());
    assert!(!Extent { block: 5, length: 5 }.is_empty());
}
