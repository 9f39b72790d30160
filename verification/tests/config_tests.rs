use s3_csv_agg::config::{local_file_name, FetchRequest};

fn name_for(key: &str) -> Vec<u8> {
    local_file_name(&key.as_bytes().to_vec())
}

#[test]
fn takes_the_final_path_segment() {
    assert_eq!(name_for("reports/2024/companies.csv"), b"companies.csv".to_vec());
}

#[test]
fn plain_key_is_its_own_file_name() {
    assert_eq!(name_for("companies.csv"), b"companies.csv".to_vec());
}

#[test]
fn empty_key_falls_back_to_default() {
    assert_eq!(name_for(""), b"temp.csv".to_vec());
}

#[test]
fn key_ending_in_slash_falls_back_to_default() {
    assert_eq!(name_for("reports/2024/"), b"temp.csv".to_vec());
}

#[test]
fn dot_segments_fall_back_to_default() {
    assert_eq!(name_for("reports/."), b"temp.csv".to_vec());
    assert_eq!(name_for("reports/.."), b"temp.csv".to_vec());
}

#[test]
fn request_derives_its_destination_from_the_key() {
    let r = FetchRequest::from_key(b"my-bucket".to_vec(), b"data/list.csv".to_vec());
    assert_eq!(r.bucket, b"my-bucket".to_vec());
    assert_eq!(r.object, b"data/list.csv".to_vec());
    assert_eq!(r.destination, b"list.csv".to_vec());
}
