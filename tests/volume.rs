use simple_fs::codec::{decode_directory, encode_directory};
use simple_fs::directory::{Directory, Fcb, FileType};
use simple_fs::disk::{Disk, FATItem, BLOCK_COUNT, BLOCK_SIZE, EOF_BYTE};
use simple_fs::disk_operator::DiskOperator;
use simple_fs::error::FsError;
use simple_fs::path::split_path;

fn fresh() -> DiskOperator {
    DiskOperator::new(None).unwrap()
}

fn payload(n: usize) -> Vec<u8> {
    (0..n).map(|i| (i % 251) as u8).collect()
}

fn free_blocks(op: &DiskOperator) -> usize {
    op.get_disk_info().2
}

#[test]
fn constants_are_as_documented() {
    assert_eq!(BLOCK_SIZE, 4096);
    assert_eq!(BLOCK_COUNT, 1024);
    assert_eq!(EOF_BYTE, 255);
}

#[test]
fn fresh_volume_stores_root_at_block_zero() {
    let op = fresh();
    assert_eq!(op.disk.fat.len(), BLOCK_COUNT);
    assert_eq!(op.disk.data.len(), BLOCK_COUNT * BLOCK_SIZE);
    assert_eq!(op.disk.fat[0], FATItem::EOF);
    assert_eq!(op.get_disk_info(), (1024, 1, 1023));
    assert_eq!(op.cur_dir.name, "root");
    assert_eq!(op.cur_dir.files.len(), 2);
    assert_eq!(op.cur_dir.files[0].name, ".");
    assert_eq!(op.cur_dir.files[1].name, "..");
    let stored = op.get_data_by_first_cluster(0).unwrap();
    let root = decode_directory(&stored).unwrap();
    assert_eq!(root.name, "root");
    assert_eq!(root.files.len(), 2);
}

#[test]
fn new_volume_rejects_root_without_own_entries() {
    let r = DiskOperator::new(Some(Directory::new("bare")));
    assert!(matches!(r, Err(FsError::CorruptDirectory)));
}

#[test]
fn block_count_rounds_up() {
    assert_eq!(DiskOperator::calculate_blocks_with_eof(0), (false, 0));
    assert_eq!(DiskOperator::calculate_blocks_with_eof(1), (true, 1));
    assert_eq!(DiskOperator::calculate_blocks_with_eof(4096), (false, 1));
    assert_eq!(DiskOperator::calculate_blocks_with_eof(4097), (true, 2));
    assert_eq!(DiskOperator::calculate_blocks_with_eof(5000), (true, 2));
}

#[test]
fn find_empty_block_gives_lowest_free() {
    let mut op = fresh();
    assert_eq!(op.find_empty_block(), Some(1));
    op.disk.fat[1] = FATItem::BadCluster;
    assert_eq!(op.find_empty_block(), Some(2));
}

#[test]
fn allocation_is_first_fit_and_linked() {
    let mut op = fresh();
    op.disk.fat[2] = FATItem::BadCluster;
    let cs = op.allocate_block(3).unwrap();
    assert_eq!(cs, vec![1, 3, 4]);
    assert_eq!(op.disk.fat[1], FATItem::Cluster(3));
    assert_eq!(op.disk.fat[3], FATItem::Cluster(4));
    assert_eq!(op.disk.fat[4], FATItem::EOF);
    assert_eq!(op.get_series(1).unwrap(), vec![1, 3, 4]);
}

#[test]
fn allocation_beyond_free_count_fails_and_takes_nothing() {
    let mut op = fresh();
    let before = free_blocks(&op);
    assert!(matches!(op.allocate_block(1024), Err(FsError::OutOfSpace)));
    assert_eq!(free_blocks(&op), before);
    assert!(op.disk.fat[1..].iter().all(|e| *e == FATItem::UnUsed));
    assert_eq!(op.allocate_block(1023).unwrap().len(), 1023);
    assert_eq!(free_blocks(&op), 0);
    assert_eq!(op.find_empty_block(), None);
}

#[test]
fn walk_steps_over_bad_block() {
    let mut op = fresh();
    op.disk.fat[5] = FATItem::BadCluster;
    op.disk.fat[6] = FATItem::Cluster(7);
    op.disk.fat[7] = FATItem::EOF;
    assert_eq!(op.get_series(5).unwrap(), vec![5, 7]);
}

#[test]
fn broken_chain_is_reported() {
    let mut op = fresh();
    op.disk.fat[5] = FATItem::Cluster(6);
    assert!(matches!(op.get_series(5), Err(FsError::CorruptChain)));
    op.disk.fat[6] = FATItem::Cluster(5);
    assert!(matches!(op.get_series(5), Err(FsError::CorruptChain)));
    assert!(matches!(op.delete_series(5), Err(FsError::CorruptChain)));
    assert_eq!(op.disk.fat[5], FATItem::Cluster(6));
}

#[test]
fn delete_series_frees_the_chain() {
    let mut op = fresh();
    let first = op.write_to_disk(&payload(9000)).unwrap();
    assert_eq!(free_blocks(&op), 1020);
    assert_eq!(op.delete_series(first).unwrap(), vec![1, 2, 3]);
    assert_eq!(free_blocks(&op), 1023);
}

#[test]
fn disk_info_leaves_bad_blocks_out() {
    let mut op = fresh();
    op.disk.fat[10] = FATItem::BadCluster;
    op.allocate_block(2).unwrap();
    assert_eq!(op.get_disk_info(), (1024, 3, 1020));
}

#[test]
fn content_round_trips_for_many_lengths() {
    for n in [0usize, 1, 100, 4095, 4097, 5000, 8191, 8193, 10 * 4096 - 1] {
        let mut op = fresh();
        let b = payload(n);
        let first = op.write_to_disk(&b).unwrap();
        assert_eq!(op.get_data_by_first_cluster(first).unwrap(), b, "length {}", n);
    }
}

#[test]
fn aligned_content_round_trips_when_last_block_has_no_marker() {
    for k in [1usize, 2, 10] {
        let mut op = fresh();
        let b = vec![7u8; k * BLOCK_SIZE];
        let first = op.write_to_disk(&b).unwrap();
        assert_eq!(op.get_data_by_first_cluster(first).unwrap(), b);
    }
}

#[test]
fn aligned_content_with_marker_byte_is_cut_at_it() {
    let mut op = fresh();
    let mut b = vec![7u8; BLOCK_SIZE];
    b[100] = EOF_BYTE;
    let first = op.write_to_disk(&b).unwrap();
    assert_eq!(op.get_data_by_first_cluster(first).unwrap().len(), 100);
}

#[test]
fn empty_content_takes_one_block() {
    let mut op = fresh();
    let first = op.write_to_disk(&[]).unwrap();
    assert_eq!(first, 1);
    assert_eq!(op.disk.fat[1], FATItem::EOF);
    assert_eq!(op.disk.data[BLOCK_SIZE], EOF_BYTE);
    assert_eq!(op.get_data_by_first_cluster(1).unwrap(), Vec::<u8>::new());
}

#[test]
fn write_fails_when_full() {
    let mut op = fresh();
    op.allocate_block(1022).unwrap();
    assert!(matches!(op.write_to_disk(&payload(5000)), Err(FsError::OutOfSpace)));
    assert_eq!(free_blocks(&op), 1);
    assert_eq!(op.write_to_disk(&payload(10)).unwrap(), 1023);
}

#[test]
fn five_thousand_byte_note() {
    let mut op = fresh();
    let b = payload(5000);
    op.new_file("note", &b).unwrap();
    let fcb = op.cur_dir.files.last().unwrap();
    let k = fcb.first_cluster;
    assert_eq!(op.get_series(k).unwrap(), vec![k, k + 1]);
    let last = op.disk.read_in_cluster(k + 1);
    assert_eq!(&last[..904], &b[4096..]);
    assert_eq!(last[904], EOF_BYTE);
    assert!(last[905..].iter().all(|x| *x == 0));
    assert_eq!(op.read_file_by_name("note").unwrap(), b);
}

#[test]
fn raw_block_writes() {
    let mut disk = Disk::new();
    disk.insert_data_in_offset(&[1, 2, 3], 10);
    assert_eq!(&disk.data[9..14], &[0, 1, 2, 3, 0]);
    disk.insert_data_in_cluster(&[9, 9], 2);
    assert_eq!(&disk.data[8192..8195], &[9, 9, 0]);
    disk.write_in_clusters(&[5u8; 4097], &[3, 1], true);
    let joined = disk.read_in_clusters(&[3, 1]);
    assert_eq!(joined, vec![5u8; 4097]);
    assert_eq!(disk.read_in_cluster(1)[1], EOF_BYTE);
    let raw = disk.read_in_cluster(3);
    assert_eq!(raw, vec![5u8; 4096]);
}

fn sample_dir() -> Directory {
    let mut d = Directory::new("docs");
    d.files.push(Fcb { name: ".".to_string(), file_type: FileType::Directory, first_cluster: 7, length: 12 });
    d.files.push(Fcb { name: "..".to_string(), file_type: FileType::Directory, first_cluster: 0, length: 0 });
    d.files.push(Fcb { name: "héllo.txt".to_string(), file_type: FileType::File, first_cluster: 9, length: 12 });
    d
}

#[test]
fn directory_codec_round_trips() {
    let d = sample_dir();
    let bytes = encode_directory(&d);
    let back = decode_directory(&bytes).unwrap();
    assert_eq!(back.name, d.name);
    assert_eq!(back.files.len(), 3);
    for (a, b) in back.files.iter().zip(d.files.iter()) {
        assert_eq!(a.name, b.name);
        assert_eq!(a.file_type, b.file_type);
        assert_eq!(a.first_cluster, b.first_cluster);
        assert_eq!(a.length, b.length);
    }
    let empty = Directory::new("");
    let back = decode_directory(&encode_directory(&empty)).unwrap();
    assert_eq!(back.name, "");
    assert!(back.files.is_empty());
}

#[test]
fn directory_codec_layout() {
    let d = Directory::new("ab");
    let bytes = encode_directory(&d);
    assert_eq!(bytes, vec![2, 0, 0, 0, 0, 0, 0, 0, b'a', b'b', 0, 0, 0, 0, 0, 0, 0, 0]);
}

#[test]
fn directory_decode_rejects_bad_bytes() {
    let bytes = encode_directory(&sample_dir());
    assert!(matches!(decode_directory(&bytes[..bytes.len() - 1]), Err(FsError::CorruptDirectory)));
    let mut longer = bytes.clone();
    longer.push(0);
    assert!(matches!(decode_directory(&longer), Err(FsError::CorruptDirectory)));
    let mut bad_tag = bytes.clone();
    bad_tag[12 + 8 + 8 + 1] = 5;
    assert!(matches!(decode_directory(&bad_tag), Err(FsError::CorruptDirectory)));
    let bad_utf8 = vec![1, 0, 0, 0, 0, 0, 0, 0, 0xff, 0, 0, 0, 0, 0, 0, 0, 0];
    assert!(matches!(decode_directory(&bad_utf8), Err(FsError::CorruptDirectory)));
    assert!(matches!(decode_directory(&[]), Err(FsError::CorruptDirectory)));
}

#[test]
fn get_file_type_and_duplicates() {
    let d = sample_dir();
    assert_eq!(d.get_file_type("héllo.txt"), Some(FileType::File));
    assert_eq!(d.get_file_type(".."), Some(FileType::Directory));
    assert_eq!(d.get_file_type("nope"), None);
    let c = d.duplicate();
    assert_eq!(c.files.len(), 3);
    assert_eq!(c.files[2].name, "héllo.txt");
}

#[test]
fn path_splitting_skips_empty_names() {
    assert_eq!(split_path("a/b"), vec!["a".to_string(), "b".to_string()]);
    assert_eq!(split_path("//a///b/"), vec!["a".to_string(), "b".to_string()]);
    assert!(split_path("").is_empty());
    assert!(split_path("///").is_empty());
    assert_eq!(split_path("é/ü"), vec!["é".to_string(), "ü".to_string()]);
}

#[test]
fn create_file_updates_directory() {
    let mut op = fresh();
    op.new_file("a", b"hello").unwrap();
    assert_eq!(op.cur_dir.files.len(), 3);
    assert_eq!(op.cur_dir.files[0].length, 5);
    assert_eq!(op.cur_dir.files[2].name, "a");
    assert_eq!(op.cur_dir.files[2].length, 5);
    assert_eq!(op.read_file_by_name("a").unwrap(), b"hello".to_vec());
    assert!(matches!(op.new_file("a", b"x"), Err(FsError::AlreadyExists)));
    assert!(matches!(op.read_file_by_name("b"), Err(FsError::NotFound)));
}

#[test]
fn create_then_delete_restores_free_count() {
    let mut op = fresh();
    let before = free_blocks(&op);
    op.new_file("a", &payload(12000)).unwrap();
    assert_eq!(free_blocks(&op), before - 3);
    op.delete_file_by_name("a").unwrap();
    assert_eq!(free_blocks(&op), before);
    assert_eq!(op.cur_dir.files.len(), 2);
    assert_eq!(op.cur_dir.files[0].length, 0);
    assert!(matches!(op.delete_file_by_name("a"), Err(FsError::NotFound)));
}

#[test]
fn own_entries_cannot_be_deleted() {
    let mut op = fresh();
    assert!(matches!(op.delete_file_by_name("."), Err(FsError::Reserved)));
    assert!(matches!(op.delete_file_by_name(".."), Err(FsError::Reserved)));
}

#[test]
fn directory_must_be_empty_to_delete() {
    let mut op = fresh();
    op.new_directory("x").unwrap();
    assert!(matches!(op.new_directory("x"), Err(FsError::AlreadyExists)));
    op.delete_file_by_name("x").unwrap();
    assert_eq!(op.cur_dir.files.len(), 2);

    op.new_directory("x").unwrap();
    op.set_current_dir("x").unwrap();
    op.new_file("inner", b"data").unwrap();
    op.set_current_dir("..").unwrap();
    assert!(matches!(op.delete_file_by_name("x"), Err(FsError::NotEmpty)));
    let x = op.cur_dir.files.iter().find(|f| f.name == "x").unwrap();
    assert_eq!(x.length, 4);
}

#[test]
fn new_directory_links_self_and_parent() {
    let mut op = fresh();
    op.new_directory("sub").unwrap();
    let fcb = op.cur_dir.files.last().unwrap();
    assert_eq!(fcb.file_type, FileType::Directory);
    let sub = op.get_directory_by_fcb(fcb).unwrap();
    assert_eq!(sub.name, "sub");
    assert_eq!(sub.files[0].name, ".");
    assert_eq!(sub.files[0].first_cluster, fcb.first_cluster);
    assert_eq!(sub.files[1].name, "..");
    assert_eq!(sub.files[1].first_cluster, 0);
}

#[test]
fn wrong_kinds_are_reported() {
    let mut op = fresh();
    op.new_file("f", b"abc").unwrap();
    op.new_directory("d").unwrap();
    assert!(matches!(op.read_file_by_name("d"), Err(FsError::NotAFile)));
    assert!(matches!(op.set_current_dir("f"), Err(FsError::NotADirectory)));
    assert!(matches!(op.set_current_dir("nope"), Err(FsError::NotFound)));
    let f = op.cur_dir.files[2].duplicate();
    assert!(matches!(op.get_directory_by_fcb(&f), Err(FsError::NotADirectory)));
    let d = op.cur_dir.files[3].duplicate();
    assert!(matches!(op.get_file_by_fcb(&d), Err(FsError::NotAFile)));
}

#[test]
fn rename_changes_only_the_name() {
    let mut op = fresh();
    op.new_file("a", b"abc").unwrap();
    op.new_file("b", b"x").unwrap();
    op.rename_file("a", "c").unwrap();
    assert_eq!(op.read_file_by_name("c").unwrap(), b"abc".to_vec());
    assert!(matches!(op.read_file_by_name("a"), Err(FsError::NotFound)));
    assert!(matches!(op.rename_file("a", "d"), Err(FsError::NotFound)));
    assert!(matches!(op.rename_file("c", "b"), Err(FsError::AlreadyExists)));
}

#[test]
fn change_directory_and_absolute_path() {
    let mut op = fresh();
    assert_eq!(op.get_abs_path().unwrap(), "/root");
    op.new_directory("a").unwrap();
    op.set_current_dir("a").unwrap();
    assert_eq!(op.cur_dir.name, "a");
    op.new_directory("b").unwrap();
    op.set_current_dir("b").unwrap();
    assert_eq!(op.get_abs_path().unwrap(), "/root/a/b");
    op.set_current_dir("..").unwrap();
    assert_eq!(op.get_abs_path().unwrap(), "/root/a");
    op.set_current_dir("..").unwrap();
    assert_eq!(op.cur_dir.name, "root");
    op.set_current_dir("..").unwrap();
    assert_eq!(op.cur_dir.name, "root");
}

#[test]
fn persist_writes_working_directory() {
    let mut op = fresh();
    op.new_file("a", b"abc").unwrap();
    op.persist().unwrap();
    let stored = decode_directory(&op.get_data_by_first_cluster(0).unwrap()).unwrap();
    assert_eq!(stored.files.len(), 3);
    assert_eq!(stored.files[2].name, "a");
    let dir = op.cur_dir.duplicate();
    op.save_dir_to_disk(&dir).unwrap();
    assert_eq!(op.get_disk_info().1, 2);
}

#[test]
fn move_keeps_the_chain() {
    let mut op = fresh();
    op.new_file("f", b"moving content").unwrap();
    op.new_directory("sub").unwrap();
    let before = op.cur_dir.files[2].first_cluster;
    op.move_file_by_name("f", "sub").unwrap();
    assert!(matches!(op.read_file_by_name("f"), Err(FsError::NotFound)));
    op.set_current_dir("sub").unwrap();
    let f = op.cur_dir.files.iter().find(|e| e.name == "f").unwrap();
    assert_eq!(f.first_cluster, before);
    assert_eq!(op.read_file_by_name("f").unwrap(), b"moving content".to_vec());
    assert_eq!(op.cur_dir.files[0].length, 14);
}

#[test]
fn move_errors() {
    let mut op = fresh();
    op.new_file("f", b"abc").unwrap();
    op.new_directory("sub").unwrap();
    assert!(matches!(op.move_file_by_name("g", "sub"), Err(FsError::NotFound)));
    assert!(matches!(op.move_file_by_name(".", "sub"), Err(FsError::Reserved)));
    assert!(matches!(op.move_file_by_name("f", "nowhere"), Err(FsError::NotFound)));
    op.new_file("g", b"xyz").unwrap();
    assert!(matches!(op.move_file_by_name("f", "g"), Err(FsError::NotADirectory)));
    assert_eq!(op.read_file_by_name("f").unwrap(), b"abc".to_vec());
}

#[test]
fn copy_does_not_share_blocks() {
    let mut op = fresh();
    let b = payload(6000);
    op.new_file("f", &b).unwrap();
    op.new_directory("sub").unwrap();
    op.copy_file_by_name("f", "sub").unwrap();
    assert!(matches!(op.copy_file_by_name("f", "sub"), Err(FsError::AlreadyExists)));
    op.delete_file_by_name("f").unwrap();
    op.set_current_dir("sub").unwrap();
    assert_eq!(op.read_file_by_name("f").unwrap(), b);
}

#[test]
fn copy_errors() {
    let mut op = fresh();
    op.new_directory("d").unwrap();
    assert!(matches!(op.copy_file_by_name("nope", "d"), Err(FsError::NotFound)));
    assert!(matches!(op.copy_file_by_name("d", "d"), Err(FsError::NotAFile)));
}

#[test]
fn resolve_path_walks_nested_directories() {
    let mut op = fresh();
    op.new_directory("a").unwrap();
    op.set_current_dir("a").unwrap();
    op.new_directory("b").unwrap();
    op.set_current_dir("..").unwrap();
    let start = op.cur_dir.duplicate();
    let b = op.resolve_path(&start, "/a//b/").unwrap();
    assert_eq!(b.name, "b");
    let same = op.resolve_path(&start, "").unwrap();
    assert_eq!(same.name, "root");
    assert!(matches!(op.resolve_path(&start, "a/c"), Err(FsError::NotFound)));
}

#[test]
fn new_volume_with_given_root() {
    let mut d = Directory::new("top");
    d.files.push(Fcb { name: ".".to_string(), file_type: FileType::Directory, first_cluster: 0, length: 0 });
    d.files.push(Fcb { name: "..".to_string(), file_type: FileType::Directory, first_cluster: 0, length: 0 });
    let op = DiskOperator::new(Some(d)).unwrap();
    assert_eq!(op.cur_dir.name, "top");
    assert_eq!(op.disk.fat[0], FATItem::EOF);
    let stored = decode_directory(&op.get_data_by_first_cluster(0).unwrap()).unwrap();
    assert_eq!(stored.name, "top");
}

#[test]
fn move_onto_taken_name_changes_nothing() {
    let mut op = fresh();
    op.new_file("f", b"abc").unwrap();
    op.new_directory("sub").unwrap();
    op.copy_file_by_name("f", "sub").unwrap();
    let fat_before = op.disk.fat.clone();
    let entries_before = op.cur_dir.files.len();
    assert!(matches!(op.move_file_by_name("f", "sub"), Err(FsError::AlreadyExists)));
    assert_eq!(op.disk.fat, fat_before);
    assert_eq!(op.cur_dir.files.len(), entries_before);
    assert_eq!(op.read_file_by_name("f").unwrap(), b"abc".to_vec());
}

#[test]
fn copy_keeps_original_and_uses_new_blocks() {
    let mut op = fresh();
    op.new_file("f", &payload(5000)).unwrap();
    op.new_directory("sub").unwrap();
    let original = op.get_series(op.cur_dir.files[2].first_cluster).unwrap();
    op.copy_file_by_name("f", "sub").unwrap();
    op.set_current_dir("sub").unwrap();
    let copy = op.get_series(op.cur_dir.files[2].first_cluster).unwrap();
    assert!(copy.iter().all(|b| !original.contains(b)));
    op.set_current_dir("..").unwrap();
    assert_eq!(op.read_file_by_name("f").unwrap(), payload(5000));
}
