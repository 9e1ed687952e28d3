use leaps_and_bounds::disk::Disk;

type Subject = Disk;

const PATH: &'static str = "/tmp/superpermutation-test";

fn subject(test_id: &'static str, gzip: bool) -> Subject {
    let path = format!("{}/{}", PATH, test_id);
    Subject::new(path, gzip)
}

#[test]
fn it_builds_the_struct_with_the_path() {
    let subject = subject("test-1", false);
    assert_eq!(subject.path, "/tmp/superpermutation-test/test-1");
}

#[test]
fn it_returns_a_name_based_on_the_number_of_wasted_symbols_and_permutations() {
    let subject = subject("test-3", false);
    let actual = subject.basename(3, 4);

    let name = "test-3/candidates-with-3-wasted-symbols-and-4-permutations.dat";
    let expected = format!("{}/{}", PATH, name);

    assert_eq!(actual, expected);
}

#[test]
fn it_returns_none_if_no_file_exists() {
    let mut subject = subject("test-4", false);
    let filename = subject.filename_for_reading(3, 4);

    assert_eq!(filename, None);
}

#[test]
fn it_adds_a_suffix_to_the_basename() {
    let mut subject = subject("test-6", false);

    let filename = subject.filename_for_writing(3, 4);
    assert_eq!(&filename[70..], "-4-permutations.dat.0");
}

#[test]
fn it_marks_compressed_files_with_gz() {
    let subject = subject("test-13", true);
    assert_eq!(
        subject.basename(12, 345),
        "/tmp/superpermutation-test/test-13/candidates-with-12-wasted-symbols-and-345-permutations.dat.gz"
    );
}

#[test]
fn it_reads_files_back_in_the_order_they_were_written() {
    let mut subject = subject("test-14", false);

    assert_eq!(subject.index_to_write_to(3, 4), 0);
    assert_eq!(subject.index_to_write_to(3, 4), 1);
    assert_eq!(subject.index_to_write_to(3, 4), 2);
    assert_eq!(subject.index_to_write_to(5, 0), 0);

    assert_eq!(subject.index_to_read_from(3, 4), Some(0));
    assert_eq!(subject.index_to_read_from(3, 4), Some(1));
    assert_eq!(subject.index_to_write_to(3, 4), 3);
    assert_eq!(subject.index_to_read_from(3, 4), Some(2));
    assert_eq!(subject.index_to_read_from(3, 4), Some(3));
    assert_eq!(subject.index_to_read_from(3, 4), None);
    assert_eq!(subject.index_to_read_from(5, 0), Some(0));
    assert_eq!(subject.index_to_read_from(0, 0), None);
}

#[test]
fn it_names_the_file_to_read_after_the_one_written() {
    let mut subject = subject("test-15", false);

    let written = subject.filename_for_writing(7, 10);
    let read = subject.filename_for_reading(7, 10);

    assert_eq!(read, Some(written));
    assert_eq!(subject.filename_for_reading(7, 10), None);
    assert!(subject.has_room());
}
