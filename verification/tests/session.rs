use pzlib::session::{
    get_dirs_iter, get_n_timestamp, get_n_timestamp_index, get_newest_path, get_session_path,
    get_sorted_list, into_paths_iter, into_u128_timestamp, session_dir_path, sort_timestamps,
    DirEntry, SessionError,
};

fn dir(path: &str) -> DirEntry {
    DirEntry { path: path.to_string(), is_dir: true }
}

fn file(path: &str) -> DirEntry {
    DirEntry { path: path.to_string(), is_dir: false }
}

fn three_sessions() -> Vec<DirEntry> {
    vec![dir("/root/100"), dir("/root/300"), dir("/root/200")]
}

#[test]
fn session_selection_orders_and_resolves() {
    assert_eq!(get_sorted_list(three_sessions()), Ok(vec![100, 200, 300]));
    assert_eq!(get_session_path(-1, "/root", three_sessions()), Ok("/root/300".to_string()));
    assert_eq!(get_session_path(0, "/root", three_sessions()), Ok("/root/100".to_string()));
    assert_eq!(get_session_path(-4, "/root", three_sessions()), Err(SessionError::OutOfRange));
    assert_eq!(get_session_path(3, "/root", three_sessions()), Err(SessionError::OutOfRange));
}

#[test]
fn every_session_number_in_range_resolves() {
    assert_eq!(get_n_timestamp(0, three_sessions()), Ok(100));
    assert_eq!(get_n_timestamp(1, three_sessions()), Ok(200));
    assert_eq!(get_n_timestamp(2, three_sessions()), Ok(300));
    assert_eq!(get_n_timestamp(-1, three_sessions()), Ok(300));
    assert_eq!(get_n_timestamp(-2, three_sessions()), Ok(200));
    assert_eq!(get_n_timestamp(-3, three_sessions()), Ok(100));
}

#[test]
fn index_of_a_session_number() {
    assert_eq!(get_n_timestamp_index(0, 3), Ok(0));
    assert_eq!(get_n_timestamp_index(2, 3), Ok(2));
    assert_eq!(get_n_timestamp_index(-1, 3), Ok(2));
    assert_eq!(get_n_timestamp_index(-3, 3), Ok(0));
    assert_eq!(get_n_timestamp_index(-1, 1), Ok(0));
    assert_eq!(get_n_timestamp_index(5, 100), Ok(5));
    assert_eq!(get_n_timestamp_index(-5, 100), Ok(95));
}

#[test]
fn index_out_of_range_is_refused_not_wrapped() {
    assert_eq!(get_n_timestamp_index(3, 3), Err(SessionError::OutOfRange));
    assert_eq!(get_n_timestamp_index(-4, 3), Err(SessionError::OutOfRange));
    assert_eq!(get_n_timestamp_index(0, 0), Err(SessionError::OutOfRange));
    assert_eq!(get_n_timestamp_index(-1, 0), Err(SessionError::OutOfRange));
    assert_eq!(get_n_timestamp_index(i32::MAX, 3), Err(SessionError::OutOfRange));
    assert_eq!(get_n_timestamp_index(i32::MIN, 3), Err(SessionError::OutOfRange));
    assert_eq!(get_n_timestamp_index(i32::MIN, usize::MAX), Ok(usize::MAX - (1usize << 31)));
}

#[test]
fn entries_that_are_not_directories_are_ignored() {
    let listing = vec![
        file("/root/notes.txt"),
        dir("/root/20"),
        file("/root/999"),
        dir("/root/10"),
        file("/root/not-a-number"),
    ];
    assert_eq!(get_dirs_iter(listing.clone()), vec![dir("/root/20"), dir("/root/10")]);
    assert_eq!(get_sorted_list(listing.clone()), Ok(vec![10, 20]));
    assert_eq!(get_session_path(-1, "/root", listing), Ok("/root/20".to_string()));
}

#[test]
fn paths_come_in_the_order_of_the_listing() {
    assert_eq!(
        into_paths_iter(vec![dir("/r/3"), file("/r/f"), dir("/r/1")]),
        vec!["/r/3".to_string(), "/r/f".to_string(), "/r/1".to_string()]
    );
    assert_eq!(into_paths_iter(vec![]), Vec::<String>::new());
}

#[test]
fn timestamps_are_read_from_the_last_component() {
    let paths = vec!["/a/b/17".to_string(), "5".to_string(), "/1/2/3".to_string()];
    assert_eq!(into_u128_timestamp(&paths), Ok(vec![17, 5, 3]));
    assert_eq!(into_u128_timestamp(&vec![]), Ok(vec![]));
}

#[test]
fn a_directory_that_is_not_a_timestamp_is_an_error() {
    let listing = vec![dir("/root/100"), dir("/root/latest"), dir("/root/200")];
    assert_eq!(
        get_sorted_list(listing.clone()),
        Err(SessionError::NotATimestamp { position: 1 })
    );
    assert_eq!(
        get_session_path(-1, "/root", listing.clone()),
        Err(SessionError::NotATimestamp { position: 1 })
    );
    // The name is judged before the number: no silent skipping.
    assert_eq!(
        get_session_path(7, "/root", listing),
        Err(SessionError::NotATimestamp { position: 1 })
    );
}

#[test]
fn the_first_bad_name_is_reported_counting_directories_only() {
    let listing = vec![
        file("/root/readme"),
        dir("/root/1"),
        file("/root/x"),
        dir("/root/-2"),
        dir("/root/oops"),
    ];
    assert_eq!(get_sorted_list(listing), Err(SessionError::NotATimestamp { position: 1 }));
    let paths = vec!["/r/1".to_string(), "/r/2/".to_string()];
    assert_eq!(into_u128_timestamp(&paths), Err(SessionError::NotATimestamp { position: 1 }));
}

#[test]
fn no_sessions_means_out_of_range() {
    assert_eq!(get_sorted_list(vec![]), Ok(vec![]));
    assert_eq!(get_session_path(-1, "/root", vec![]), Err(SessionError::OutOfRange));
    assert_eq!(get_session_path(0, "/root", vec![file("/root/1")]), Err(SessionError::OutOfRange));
    assert_eq!(get_newest_path("/root", vec![]), Err(SessionError::OutOfRange));
}

#[test]
fn sorting_is_by_value_not_by_text() {
    let listing = vec![dir("/r/9"), dir("/r/10"), dir("/r/100"), dir("/r/1700000000000"), dir("/r/2")];
    assert_eq!(get_sorted_list(listing.clone()), Ok(vec![2, 9, 10, 100, 1_700_000_000_000]));
    assert_eq!(get_newest_path("/r", listing), Ok("/r/1700000000000".to_string()));
}

#[test]
fn sort_keeps_every_timestamp() {
    assert_eq!(sort_timestamps(vec![]), Vec::<u128>::new());
    assert_eq!(sort_timestamps(vec![5]), vec![5]);
    assert_eq!(sort_timestamps(vec![3, 1, 2, 3, 1, 0]), vec![0, 1, 1, 2, 3, 3]);
    assert_eq!(sort_timestamps(vec![u128::MAX, 0, 7]), vec![0, 7, u128::MAX]);
    let mut many: Vec<u128> = (0..200).map(|i| (i * 7919) % 211).collect();
    let sorted = sort_timestamps(many.clone());
    many.sort();
    assert_eq!(sorted, many);
}

#[test]
fn the_path_is_written_from_the_timestamp() {
    assert_eq!(session_dir_path("/root", 42), "/root/42");
    assert_eq!(session_dir_path("", 0), "/0");
    // A name with a sign or leading zeros is a timestamp, and the path holds its value.
    assert_eq!(get_session_path(0, "/root", vec![dir("/root/007")]), Ok("/root/7".to_string()));
    assert_eq!(get_session_path(0, "/root", vec![dir("/root/+8")]), Ok("/root/8".to_string()));
}

#[test]
fn newest_path_is_session_minus_one() {
    assert_eq!(get_newest_path("/root", three_sessions()), Ok("/root/300".to_string()));
    assert_eq!(
        get_newest_path("/root", three_sessions()),
        get_session_path(-1, "/root", three_sessions())
    );
}
