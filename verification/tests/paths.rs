use valve_resource_tools::{archive_file_name, index_file_name};

#[test]
fn get_base_path() {
    assert_eq!(
        valve_resource_tools::get_base_path("/example/directory/file_dir.vpk"),
        "/example/directory/file_"
    );
    assert_eq!(
        valve_resource_tools::get_base_path("/example/directory/file_001.vpk"),
        "/example/directory/file_"
    );
}

#[test]
fn base_path_of_a_name_of_seven_bytes_is_empty() {
    assert_eq!(valve_resource_tools::get_base_path("dir.vpk"), "");
}

#[test]
fn base_path_keeps_characters_of_several_bytes() {
    assert_eq!(
        valve_resource_tools::get_base_path("/données/été_dir.vpk"),
        "/données/été_"
    );
}

#[test]
fn index_file_is_named_after_the_base_path() {
    assert_eq!(index_file_name("/a/pak01_"), "/a/pak01_dir.vpk");
}

#[test]
fn archive_files_are_numbered_with_three_digits() {
    assert_eq!(archive_file_name("/a/pak01_", 0), "/a/pak01_000.vpk");
    assert_eq!(archive_file_name("/a/pak01_", 7), "/a/pak01_007.vpk");
    assert_eq!(archive_file_name("/a/pak01_", 42), "/a/pak01_042.vpk");
    assert_eq!(archive_file_name("/a/pak01_", 999), "/a/pak01_999.vpk");
}

#[test]
fn archive_numbers_above_999_take_more_digits() {
    assert_eq!(archive_file_name("p_", 1000), "p_1000.vpk");
    assert_eq!(archive_file_name("p_", 9999), "p_9999.vpk");
    assert_eq!(archive_file_name("p_", 10000), "p_10000.vpk");
    assert_eq!(archive_file_name("p_", 65535), "p_65535.vpk");
}

#[test]
fn archive_names_agree_with_padded_formatting() {
    for index in [0u16, 1, 9, 10, 99, 100, 101, 998, 1001, 12345, 32767, 65535] {
        assert_eq!(archive_file_name("x_", index), format!("x_{:0>3}.vpk", index));
    }
}
