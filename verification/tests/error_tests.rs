use pfr::errors::Error;

#[test]
fn describe_storage_unavailable() {
    assert_eq!(
        Error::StorageUnavailable.describe(),
        "An error occurred while attempting to find the current user's home directory; couldn't find it"
    );
}

#[test]
fn describe_io_error_carries_detail() {
    assert_eq!(
        Error::IOError("permission denied".to_string()).describe(),
        "An error occurred while attempting to open the data file: permission denied"
    );
}

#[test]
fn describe_not_found_names_the_snapshot() {
    assert_eq!(
        Error::NotFound("holiday".to_string()).describe(),
        "An error occurred: there is no ledger called holiday"
    );
}

#[test]
fn describe_decode_error() {
    assert_eq!(
        Error::DecodeError.describe(),
        "An error occurred while attempting to load from the data file"
    );
}

#[test]
fn describe_encode_error() {
    assert_eq!(
        Error::EncodeError.describe(),
        "An error occurred while attempting to save to the data file"
    );
}

#[test]
fn describe_duplicate_name_names_the_entry() {
    assert_eq!(
        Error::DuplicateName("rent".to_string()).describe(),
        "An error occurred: a transaction called rent is already present in the ledger"
    );
}
