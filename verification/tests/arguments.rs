use snapdiff::drivers::arg::{driver_from_arg, split_fields, DriverArg, DriverArgError};

#[test]
fn fields_between_separators() {
    assert_eq!(split_fields("a|b|c", '|'), vec!["a", "b", "c"]);
    assert_eq!(split_fields("", '|'), vec![""]);
    assert_eq!(split_fields("|", '|'), vec!["", ""]);
    assert_eq!(split_fields("a||b|", '|'), vec!["a", "", "b", ""]);
    assert_eq!(split_fields("no separator", '|'), vec!["no separator"]);
    assert_eq!(split_fields("é@ü", '@'), vec!["é", "ü"]);
}

#[test]
fn plain_argument_is_a_local_directory() {
    assert_eq!(driver_from_arg("/home/me"), Ok(DriverArg::Fs { path: "/home/me".to_string() }));
    assert_eq!(driver_from_arg(""), Ok(DriverArg::Fs { path: "".to_string() }));
    assert_eq!(driver_from_arg("sftp"), Ok(DriverArg::Fs { path: "sftp".to_string() }));
    assert_eq!(driver_from_arg("SFTP:a@b|c|d|e"), Ok(DriverArg::Fs { path: "SFTP:a@b|c|d|e".to_string() }));
}

#[test]
fn marked_argument_is_a_remote_directory() {
    assert_eq!(
        driver_from_arg("sftp:me@host:22|/k/id.pub|/k/id|/srv/data"),
        Ok(DriverArg::Sftp {
            username: "me".to_string(),
            address: "host:22".to_string(),
            pub_key_path: "/k/id.pub".to_string(),
            priv_key_path: "/k/id".to_string(),
            path: "/srv/data".to_string(),
        })
    );
    assert_eq!(
        driver_from_arg("sftp:@|||"),
        Ok(DriverArg::Sftp {
            username: "".to_string(),
            address: "".to_string(),
            pub_key_path: "".to_string(),
            priv_key_path: "".to_string(),
            path: "".to_string(),
        })
    );
}

#[test]
fn each_defect_of_a_remote_argument() {
    assert_eq!(driver_from_arg("sftp:"), Err(DriverArgError::MissingAddress));
    assert_eq!(driver_from_arg("sftp:me|a|b|c"), Err(DriverArgError::MissingAddress));
    assert_eq!(driver_from_arg("sftp:me@h@x|a|b|c"), Err(DriverArgError::TooManyAts));
    assert_eq!(driver_from_arg("sftp:me@h"), Err(DriverArgError::MissingPublicKey));
    assert_eq!(driver_from_arg("sftp:me@h|a"), Err(DriverArgError::MissingPrivateKey));
    assert_eq!(driver_from_arg("sftp:me@h|a|b"), Err(DriverArgError::MissingDirectory));
    assert_eq!(driver_from_arg("sftp:me@h|a|b|c|d"), Err(DriverArgError::TooManySeparators));
    assert_eq!(driver_from_arg("sftp:me|a|b|c|d"), Err(DriverArgError::MissingAddress));
}
