use ntfs_search::drives::{device_path, drive_letters, is_ntfs_name, snapshot_file_name};

#[test]
fn each_bit_of_the_mask_is_a_letter() {
    assert_eq!(drive_letters(0), Vec::<char>::new());
    assert_eq!(drive_letters(0b1), vec!['A']);
    assert_eq!(drive_letters(0b101), vec!['A', 'C']);
    assert_eq!(drive_letters(0b1100), vec!['C', 'D']);
    assert_eq!(drive_letters(1 << 25), vec!['Z']);
}

#[test]
fn bits_beyond_z_name_no_drive() {
    assert_eq!(drive_letters(1 << 26), Vec::<char>::new());
    assert_eq!(drive_letters(0xFC00_0004), vec!['C']);
    assert_eq!(drive_letters(u32::MAX).len(), 26);
}

#[test]
fn ntfs_is_told_by_its_name() {
    let mut buffer = [0u8; 260];
    buffer[..4].copy_from_slice(b"NTFS");
    assert!(is_ntfs_name(&buffer));
    assert!(is_ntfs_name(b"NTFS"));
    assert!(is_ntfs_name(b"\0N\0T\0F\0S"));
}

#[test]
fn other_file_systems_are_not_ntfs() {
    let mut buffer = [0u8; 260];
    buffer[..5].copy_from_slice(b"FAT32");
    assert!(!is_ntfs_name(&buffer));
    assert!(!is_ntfs_name(b""));
    assert!(!is_ntfs_name(&[0u8; 16]));
    assert!(!is_ntfs_name(b"NTF"));
    assert!(!is_ntfs_name(b"NTFSX"));
    assert!(!is_ntfs_name(b"ntfs"));
    assert!(!is_ntfs_name(b"exFAT"));
    assert!(!is_ntfs_name(b"NTFS\0\0\xFF"));
}

#[test]
fn a_volume_is_opened_under_its_device_name() {
    assert_eq!(device_path('C'), "\\\\.\\C:");
    assert_eq!(device_path('Z'), "\\\\.\\Z:");
}

#[test]
fn a_snapshot_is_kept_under_the_letter() {
    assert_eq!(snapshot_file_name('C'), "C.fd");
    assert_eq!(snapshot_file_name('D'), "D.fd");
}
