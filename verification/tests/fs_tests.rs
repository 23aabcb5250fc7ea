use scheme_io::disk::Disk;
use scheme_io::file::{FileOpen, FileResource, FileScheme};
use scheme_io::fs::FileSystem;
use scheme_io::resource::ResourceSeek;

fn put_le64(out: &mut Vec<u8>, x: u64) {
    out.extend_from_slice(&x.to_le_bytes());
}

fn put_extent(out: &mut Vec<u8>, block: u64, length: u64) {
    put_le64(out, block);
    put_le64(out, length);
}

/// A 512-byte header block: signature, version, empty label, and the given
/// extents (the rest of the 16 slots left empty).
fn header_block(extents: &[(u64, u64)]) -> Vec<u8> {
    let mut b = Vec::new();
    b.extend_from_slice(b"REDOXFS\0");
    b.extend_from_slice(&0xFFFF_FFFFu32.to_le_bytes());
    b.resize(256, 0);
    for &(block, length) in extents {
        put_extent(&mut b, block, length);
    }
    b.resize(512, 0);
    b
}

/// A 512-byte node record: NUL-padded name, then the given extents.
fn node_record(name: &[u8], extents: &[(u64, u64)]) -> Vec<u8> {
    let mut b = Vec::new();
    b.extend_from_slice(name);
    b.resize(256, 0);
    for &(block, length) in extents {
        put_extent(&mut b, block, length);
    }
    b.resize(512, 0);
    b
}

/// A disk image from whole blocks: index 0 is block 0.
fn image(blocks: &[&[u8]]) -> Vec<u8> {
    let mut d = Vec::new();
    for blk in blocks {
        let start = d.len();
        d.extend_from_slice(blk);
        d.resize(start + 512, 0);
    }
    d
}

fn mount(bytes: Vec<u8>) -> FileSystem {
    FileSystem::from_disk(Disk::new(bytes, 14)).expect("volume should mount")
}

fn minimal_volume() -> Vec<u8> {
    let boot = [0u8; 512];
    let header = header_block(&[(2, 512)]);
    let node = node_record(b"hello", &[(3, 5)]);
    let mut data = b"world".to_vec();
    data.resize(512, 0);
    image(&[&boot, &header, &node, &data])
}

#[test]
fn mount_minimal_volume_and_read_file() {
    let fs = mount(minimal_volume());
    let mut scheme = FileScheme { fs };
    match scheme.open(&b"hello".to_vec()) {
        Some(FileOpen::File(mut f)) => {
            let mut buf = vec![0u8; 16];
            let n = f.read(&mut buf).unwrap();
            assert_eq!(n, 5);
            assert_eq!(&buf[..5], b"world");
        }
        _ => panic!("expected a file"),
    }
}

#[test]
fn mount_minimal_volume_and_list_root() {
    let fs = mount(minimal_volume());
    let mut scheme = FileScheme { fs };
    match scheme.open(&Vec::new()) {
        Some(FileOpen::Listing(mut v)) => {
            let mut buf = vec![0u8; 32];
            let n = v.read(&mut buf).unwrap();
            assert_eq!(&buf[..n], b"hello");
        }
        _ => panic!("expected a listing"),
    }
}

#[test]
fn mount_rejects_bad_signature() {
    let mut img = minimal_volume();
    img[512] = b'X';
    assert!(FileSystem::from_disk(Disk::new(img, 14)).is_none());
}

#[test]
fn mount_rejects_bad_version() {
    let mut img = minimal_volume();
    img[512 + 8] = 0;
    assert!(FileSystem::from_disk(Disk::new(img, 14)).is_none());
}

#[test]
fn mount_rejects_node_table_off_disk() {
    let boot = [0u8; 512];
    let header = header_block(&[(100, 512)]);
    let img = image(&[&boot, &header]);
    assert!(FileSystem::from_disk(Disk::new(img, 14)).is_none());
}

#[test]
fn mount_rejects_short_disk() {
    assert!(FileSystem::from_disk(Disk::new(vec![0u8; 512], 14)).is_none());
}

#[test]
fn directory_collapse() {
    let boot = [0u8; 512];
    let header = header_block(&[(2, 3 * 512)]);
    let mut table = Vec::new();
    table.extend_from_slice(&node_record(b"a/b", &[]));
    table.extend_from_slice(&node_record(b"a/c", &[]));
    table.extend_from_slice(&node_record(b"d", &[]));
    let img = image(&[&boot, &header, &table[0..512], &table[512..1024], &table[1024..1536]]);
    let fs = mount(img);
    let entries = fs.list(&Vec::new());
    assert_eq!(entries, vec![b"a/".to_vec(), b"d".to_vec()]);
}

#[test]
fn list_strips_prefix_inside_directory() {
    let boot = [0u8; 512];
    let header = header_block(&[(2, 2 * 512)]);
    let mut table = Vec::new();
    table.extend_from_slice(&node_record(b"a/b", &[]));
    table.extend_from_slice(&node_record(b"a/c/d", &[]));
    let img = image(&[&boot, &header, &table[0..512], &table[512..1024]]);
    let fs = mount(img);
    let entries = fs.list(&b"a/".to_vec());
    assert_eq!(entries, vec![b"b".to_vec(), b"c/".to_vec()]);
}

#[test]
fn node_lookup_is_byte_exact() {
    let fs = mount(minimal_volume());
    assert!(fs.node(&b"hello".to_vec()).is_some());
    assert!(fs.node(&b"hell".to_vec()).is_none());
    assert!(fs.node(&b"hello2".to_vec()).is_none());
    let n = fs.node(&b"hello".to_vec()).unwrap();
    assert_eq!(n.block, 2);
    assert_eq!(n.extents[0].block, 3);
    assert_eq!(n.extents[0].length, 5);
}

#[test]
fn open_unknown_path_fails() {
    let fs = mount(minimal_volume());
    let mut scheme = FileScheme { fs };
    assert!(scheme.open(&b"nope".to_vec()).is_none());
}

#[test]
fn file_read_write_seek_round_trip() {
    let fs = mount(minimal_volume());
    let mut scheme = FileScheme { fs };
    let mut f = match scheme.open(&b"hello".to_vec()) {
        Some(FileOpen::File(f)) => f,
        _ => panic!("expected a file"),
    };
    // Overwrite past the end: the buffer grows.
    let n = f.write(&b"xyzzy!!".to_vec()).unwrap();
    assert_eq!(n, 7);
    assert!(f.dirty);
    f.seek(ResourceSeek::Start(0)).unwrap();
    let mut buf = vec![0u8; 7];
    let n = f.read(&mut buf).unwrap();
    assert_eq!(n, 7);
    assert_eq!(buf, b"xyzzy!!");
}

#[test]
fn write_then_read_back_from_start() {
    let fs = mount(minimal_volume());
    let mut scheme = FileScheme { fs };
    let mut f = match scheme.open(&b"hello".to_vec()) {
        Some(FileOpen::File(f)) => f,
        _ => panic!("expected a file"),
    };
    let payload = b"abc".to_vec();
    f.write(&payload).unwrap();
    f.seek(ResourceSeek::Start(0)).unwrap();
    let mut out = vec![0u8; 3];
    let n = f.read(&mut out).unwrap();
    assert_eq!(n, 3);
    assert_eq!(out, payload);
}

#[test]
fn seek_zero_extends_an_empty_file() {
    let mut f = FileResource {
        node: scheme_io::fs::Node { block: 2, name: b"e".to_vec(), extents: Vec::new() },
        vec: Vec::new(),
        seek: 0,
        dirty: false,
    };
    let pos = f.seek(ResourceSeek::Start(4)).unwrap();
    assert_eq!(pos, 4);
    assert_eq!(f.vec, vec![0u8; 4]);
    assert!(!f.dirty);
    f.seek(ResourceSeek::Start(0)).unwrap();
    let mut out = vec![9u8; 4];
    let n = f.read(&mut out).unwrap();
    assert_eq!(n, 4);
    assert_eq!(out, vec![0u8; 4]);
}

#[test]
fn seek_clamps_below_zero() {
    let fs = mount(minimal_volume());
    let mut scheme = FileScheme { fs };
    let mut f = match scheme.open(&b"hello".to_vec()) {
        Some(FileOpen::File(f)) => f,
        _ => panic!("expected a file"),
    };
    let pos = f.seek(ResourceSeek::Current(-100)).unwrap();
    assert_eq!(pos, 0);
    let pos = f.seek(ResourceSeek::End(-2)).unwrap();
    assert_eq!(pos, 3);
}

#[test]
fn read_at_end_of_file_returns_zero() {
    let fs = mount(minimal_volume());
    let mut scheme = FileScheme { fs };
    let mut f = match scheme.open(&b"hello".to_vec()) {
        Some(FileOpen::File(f)) => f,
        _ => panic!("expected a file"),
    };
    f.seek(ResourceSeek::End(0)).unwrap();
    let mut buf = vec![0u8; 4];
    assert_eq!(f.read(&mut buf).unwrap(), 0);
}

#[test]
fn sync_shrinks_an_extent_and_rewrites_the_node() {
    // A file with one extent of 1024 bytes at block 10, rewritten to 100.
    let boot = [0u8; 512];
    let header = header_block(&[(2, 512)]);
    let node = node_record(b"f", &[(10, 1024)]);
    let mut blocks: Vec<Vec<u8>> = vec![boot.to_vec(), header, node];
    while blocks.len() < 12 {
        blocks.push(vec![0u8; 512]);
    }
    let refs: Vec<&[u8]> = blocks.iter().map(|b| b.as_slice()).collect();
    let img = image(&refs);
    let mut fs = mount(img);
    let node = fs.node(&b"f".to_vec()).unwrap();
    let mut f = FileResource { node, vec: vec![7u8; 100], seek: 0, dirty: true };
    let ok = f.sync(&mut fs);
    assert!(ok);
    assert!(!f.dirty);
    assert_eq!(f.node.extents[0].block, 10);
    assert_eq!(f.node.extents[0].length, 100);
    // The hundred bytes landed at block 10.
    assert_eq!(&fs.disk.bytes[10 * 512..10 * 512 + 100], &[7u8; 100][..]);
    // The in-memory node list was updated.
    assert_eq!(fs.nodes[0].extents[0].length, 100);
    // The node record on disk was rewritten: remount and look.
    let fs2 = mount(fs.disk.bytes.clone());
    let n2 = fs2.node(&b"f".to_vec()).unwrap();
    assert_eq!(n2.extents[0].block, 10);
    assert_eq!(n2.extents[0].length, 100);
}

#[test]
fn sync_reports_false_when_extents_are_too_small() {
    let boot = [0u8; 512];
    let header = header_block(&[(2, 512)]);
    let node = node_record(b"f", &[(10, 512)]);
    let mut blocks: Vec<Vec<u8>> = vec![boot.to_vec(), header, node];
    while blocks.len() < 12 {
        blocks.push(vec![0u8; 512]);
    }
    let refs: Vec<&[u8]> = blocks.iter().map(|b| b.as_slice()).collect();
    let img = image(&refs);
    let mut fs = mount(img);
    let node = fs.node(&b"f".to_vec()).unwrap();
    // 600 bytes cannot fit a single 512-byte extent; no reallocation happens.
    let mut f = FileResource { node, vec: vec![1u8; 600], seek: 0, dirty: true };
    let ok = f.sync(&mut fs);
    assert!(!ok);
    assert!(!f.dirty);
    // The first 512 bytes were still written.
    assert_eq!(&fs.disk.bytes[10 * 512..11 * 512], &[1u8; 512][..]);
}

#[test]
fn clean_sync_does_nothing() {
    let mut fs = mount(minimal_volume());
    let before = fs.disk.bytes.clone();
    let node = fs.node(&b"hello".to_vec()).unwrap();
    let mut f = FileResource { node, vec: b"world".to_vec(), seek: 0, dirty: false };
    assert!(f.sync(&mut fs));
    assert_eq!(fs.disk.bytes, before);
}

#[test]
fn close_flushes_dirty_contents() {
    let mut fs = mount(minimal_volume());
    let node = fs.node(&b"hello".to_vec()).unwrap();
    let mut f = FileResource { node, vec: b"WORLD".to_vec(), seek: 0, dirty: true };
    f.close(&mut fs);
    assert!(!f.dirty);
    assert_eq!(&fs.disk.bytes[3 * 512..3 * 512 + 5], b"WORLD");
}

#[test]
fn file_dup_is_independent() {
    let fs = mount(minimal_volume());
    let mut scheme = FileScheme { fs };
    let f = match scheme.open(&b"hello".to_vec()) {
        Some(FileOpen::File(f)) => f,
        _ => panic!("expected a file"),
    };
    let mut d = f.dup().unwrap();
    d.write(&b"zzz".to_vec()).unwrap();
    assert_eq!(f.vec, b"world".to_vec());
    assert_eq!(d.vec, b"zzzld".to_vec());
}

#[test]
fn file_url_names_the_node() {
    let fs = mount(minimal_volume());
    let mut scheme = FileScheme { fs };
    let f = match scheme.open(&b"hello".to_vec()) {
        Some(FileOpen::File(f)) => f,
        _ => panic!("expected a file"),
    };
    assert_eq!(f.url(), b"file:///hello".to_vec());
}

#[test]
fn scheme_name_is_file() {
    let fs = mount(minimal_volume());
    let scheme = FileScheme { fs };
    assert_eq!(scheme.scheme(), "file");
}

#[test]
fn open_refuses_a_node_the_disk_cannot_serve() {
    // The node's data extent lies beyond the end of the disk.
    let boot = [0u8; 512];
    let header = header_block(&[(2, 512)]);
    let node = node_record(b"far", &[(1000, 512)]);
    let img = image(&[&boot, &header, &node]);
    let fs = mount(img);
    let mut scheme = FileScheme { fs };
    assert!(scheme.open(&b"far".to_vec()).is_none());
}

#[test]
fn cursor_never_passes_the_buffer() {
    let fs = mount(minimal_volume());
    let mut scheme = FileScheme { fs };
    let mut f = match scheme.open(&b"hello".to_vec()) {
        Some(FileOpen::File(f)) => f,
        _ => panic!("expected a file"),
    };
    assert!(f.seek <= f.vec.len());
    let mut buf = vec![0u8; 64];
    f.read(&mut buf).unwrap();
    assert!(f.seek <= f.vec.len());
    f.write(&vec![1u8; 64]).unwrap();
    assert!(f.seek <= f.vec.len());
    f.seek(ResourceSeek::Start(200)).unwrap();
    assert!(f.seek <= f.vec.len());
    f.seek(ResourceSeek::End(-1)).unwrap();
    assert!(f.seek <= f.vec.len());
}
