use valve_resource_tools::ErrorKind;

#[test]
fn errors_print_their_kind_and_detail() {
    assert_eq!(ErrorKind::InvalidHeader("Signature".to_string()).to_string(), "Invalid Header: Signature");
    assert_eq!(ErrorKind::MalformedData("x".to_string()).to_string(), "Malformed Data: x");
    assert_eq!(ErrorKind::DoesNotExist("".to_string()).to_string(), "Does Not Exist: ");
    assert_eq!(ErrorKind::AlreadyExists("a/b.c".to_string()).to_string(), "Already Exists: a/b.c");
    assert_eq!(
        ErrorKind::ValidationFailed("tree_checksum".to_string()).to_string(),
        "Validation Failed: tree_checksum"
    );
}

#[test]
fn io_errors_print_their_detail_alone() {
    assert_eq!(ErrorKind::IO("failed to fill whole buffer".to_string()).to_string(), "failed to fill whole buffer");
}
