use deploy_aws_s3::digest::FileHasher;
use deploy_aws_s3::drivers::fsdriver::FSDriver;

#[test]
fn checksum_of_known_content() {
    assert_eq!(
        FSDriver::local_file_hash(b"hello world"),
        "b94d27b9934d3e08a52e52d7da7dabfac484efe37a5380ee9088f7ace2efcde9"
    );
}

#[test]
fn checksum_of_empty_content() {
    assert_eq!(
        FSDriver::local_file_hash(b""),
        "e3b0c44298fc1c149afbf4c8996fb92427ae41e4649b934ca495991b7852b855"
    );
}

#[test]
fn checksum_in_chunks_equals_checksum_of_the_whole() {
    let mut hasher = FileHasher::new();
    hasher.update(b"hello");
    hasher.update(b" ");
    hasher.update(b"");
    hasher.update(b"world");
    assert_eq!(hasher.finish(), FSDriver::local_file_hash(b"hello world"));
}

#[test]
fn checksum_is_lower_case_hexadecimal_of_fixed_length() {
    let checksum = FSDriver::local_file_hash(&[0xffu8, 0x00, 0xab]);
    assert_eq!(checksum.len(), 64);
    assert!(checksum.chars().all(|c| c.is_ascii_digit() || ('a'..='f').contains(&c)));
    assert_ne!(checksum, FSDriver::local_file_hash(&[0xffu8, 0x00, 0xac]));
}
